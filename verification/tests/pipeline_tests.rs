use spaceship::pipeline::{assemble_triangles, visible_fragment_indices};

#[test]
fn too_few_vertices_make_no_triangle() {
    assert!(assemble_triangles(0).is_empty());
    assert!(assemble_triangles(1).is_empty());
    assert!(assemble_triangles(2).is_empty());
}

#[test]
fn vertices_are_grouped_in_threes() {
    assert_eq!(assemble_triangles(3), vec![(0, 1, 2)]);
    assert_eq!(assemble_triangles(7), vec![(0, 1, 2), (3, 4, 5)]);
    assert_eq!(assemble_triangles(9), vec![(0, 1, 2), (3, 4, 5), (6, 7, 8)]);
}

#[test]
fn every_full_triangle_uses_each_vertex_once() {
    let n = 100;
    let t = assemble_triangles(n);
    assert_eq!(t.len(), 33);
    let mut seen = vec![0; n];
    for (a, b, c) in &t {
        seen[*a] += 1;
        seen[*b] += 1;
        seen[*c] += 1;
    }
    for (i, count) in seen.iter().enumerate() {
        assert_eq!(*count, if i < 99 { 1 } else { 0 });
    }
}

#[test]
fn fragments_off_frame_are_dropped() {
    let positions = vec![(0, 0), (10, 3), (9, 9), (3, 10), (4, 4)];
    assert_eq!(visible_fragment_indices(&positions, 10, 10), vec![0, 2, 4]);
    assert_eq!(visible_fragment_indices(&positions, 0, 10), Vec::<usize>::new());
    assert_eq!(visible_fragment_indices(&Vec::new(), 10, 10), Vec::<usize>::new());
}
