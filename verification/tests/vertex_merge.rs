use poisson_recon::vertex_merge::{merge_keys, remap_triangles};

#[test]
fn first_vertex_of_each_key_is_kept() {
    let keys = vec![[0i64, 0, 0], [1, 0, 0], [0, 0, 0], [-5, 2, 7], [1, 0, 0], [0, 0, 1]];
    let (kept, remap) = merge_keys(&keys);
    assert_eq!(kept, vec![0, 1, 3, 5]);
    assert_eq!(remap, vec![0, 1, 0, 2, 1, 3]);
}

#[test]
fn keys_differing_in_high_bits_stay_apart() {
    let keys = vec![[i64::MIN, -1, 0], [i64::MAX, -1, 0], [i64::MIN, -1, 0], [0, 0, i64::MIN]];
    let (kept, remap) = merge_keys(&keys);
    assert_eq!(kept, vec![0, 1, 3]);
    assert_eq!(remap, vec![0, 1, 0, 2]);
    let (kept, remap) = merge_keys(&[]);
    assert!(kept.is_empty() && remap.is_empty());
}

#[test]
fn triangles_follow_the_remap() {
    let mut tris = vec![[0usize, 1, 2], [2, 4, 5]];
    remap_triangles(&mut tris, &[0, 1, 0, 2, 1, 3]);
    assert_eq!(tris, vec![[0, 1, 0], [0, 1, 3]]);
}
