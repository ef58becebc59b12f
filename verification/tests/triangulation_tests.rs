use rg::blob::{blob_to_bools, blob_to_data, bools_to_blob, data_to_blob};
use rg::triangulation::{keep_face, link_triangles, FaceTopology, TriangleLink};

fn two_triangles() -> Vec<FaceTopology> {
    vec![
        FaceTopology { vertices: [0, 1, 2], neighbors: [None, Some(1), None] },
        FaceTopology { vertices: [2, 1, 3], neighbors: [Some(0), None, None] },
    ]
}

#[test]
fn shared_edge_gets_paired_links() {
    let links = link_triangles(&two_triangles());
    assert_eq!(links.len(), 2);
    assert_eq!(
        links[0].links(),
        &[TriangleLink { segment: [1, 2], edge: 1, opposite_triangle: 1, opposite_link: 0, opposite_edge: 0 }][..]
    );
    assert_eq!(
        links[1].links(),
        &[TriangleLink { segment: [2, 1], edge: 0, opposite_triangle: 0, opposite_link: 0, opposite_edge: 1 }][..]
    );
}

#[test]
fn fan_of_three_triangles() {
    // triangles 0 and 2 both border triangle 1; triangle 1 is handled second
    let faces = vec![
        FaceTopology { vertices: [0, 1, 2], neighbors: [None, Some(1), None] },
        FaceTopology { vertices: [2, 1, 3], neighbors: [Some(0), Some(2), None] },
        FaceTopology { vertices: [3, 1, 4], neighbors: [Some(1), None, None] },
    ];
    let links = link_triangles(&faces);
    assert_eq!(links[1].links().len(), 2);
    assert_eq!(links[1].links()[0].opposite_triangle, 0);
    assert_eq!(links[1].links()[1].opposite_triangle, 2);
    assert_eq!(links[1].links()[1].segment, [1, 3]);
    assert_eq!(
        links[2].links(),
        &[TriangleLink { segment: [3, 1], edge: 0, opposite_triangle: 1, opposite_link: 1, opposite_edge: 1 }][..]
    );
    for (t, ls) in links.iter().enumerate() {
        for (p, l) in ls.links().iter().enumerate() {
            let back = links[l.opposite_triangle as usize].links()[l.opposite_link as usize];
            assert_eq!(back.opposite_triangle as usize, t);
            assert_eq!(back.opposite_link as usize, p);
            assert_eq!(back.edge, l.opposite_edge);
        }
    }
}

#[test]
fn lone_triangle_has_no_links() {
    let faces = vec![FaceTopology { vertices: [0, 1, 2], neighbors: [None, None, None] }];
    let links = link_triangles(&faces);
    assert_eq!(links.len(), 1);
    assert!(links[0].links().is_empty());
    assert!(link_triangles(&[]).is_empty());
}

#[test]
fn first_one_way_constraint_decides() {
    assert!(keep_face(&[]));
    assert!(keep_face(&[(false, false), (true, true)]));
    assert!(keep_face(&[(false, false), (true, false), (false, true)]));
    assert!(!keep_face(&[(false, true), (true, false)]));
}

#[test]
fn blobs_round_trip() {
    let data: Vec<u8> = (0..200u32).map(|v| (v % 7) as u8).collect();
    let blob = data_to_blob(&data).unwrap();
    assert_ne!(blob, data);
    assert_eq!(&blob[..4], &[0x28, 0xb5, 0x2f, 0xfd]);
    assert_eq!(blob_to_data(&blob), Some(data));
    assert_eq!(blob_to_data(&[1, 2, 3]), None);

    let bools = vec![true, false, false, true, true];
    let blob = bools_to_blob(&bools).unwrap();
    assert_eq!(blob_to_bools(&blob), Some(bools));
    let bad = data_to_blob(&[0, 1, 2]).unwrap();
    assert_eq!(blob_to_bools(&bad), None);
}
