use raytr::perlin::{permute, permute_with, random_permutation_0_to_255, PerlinData};

fn is_permutation_of_0_to_255(v: &[usize]) -> bool {
    let mut seen = vec![false; 256];
    for &x in v {
        if x >= 256 || seen[x] {
            return false;
        }
        seen[x] = true;
    }
    v.len() == 256
}

#[test]
fn random_permutation_holds_each_index_once() {
    let identity: Vec<usize> = (0..256).collect();
    let mut shuffled = 0;
    for _ in 0..20 {
        let p = random_permutation_0_to_255();
        assert!(is_permutation_of_0_to_255(&p));
        if p != identity {
            shuffled += 1;
        }
    }
    assert!(shuffled > 0);
}

#[test]
fn permute_keeps_the_entries() {
    let mut v = vec![5, 5, 1, 9, 0, 3, 3, 3];
    permute(&mut v);
    let mut sorted = v.clone();
    sorted.sort();
    assert_eq!(sorted, vec![0, 1, 3, 3, 3, 5, 5, 9]);

    let mut empty: Vec<usize> = Vec::new();
    permute(&mut empty);
    assert!(empty.is_empty());
}

#[test]
fn cube_indices_follow_the_lattice_hash() {
    let data = PerlinData::new();
    assert!(is_permutation_of_0_to_255(&data.perm_x));
    assert!(is_permutation_of_0_to_255(&data.perm_y));
    assert!(is_permutation_of_0_to_255(&data.perm_z));
    for &(i, j, k) in &[(0, 0, 0), (3, 200, 255), (255, 255, 255), (1000, 7, usize::MAX)] {
        let cube = data.cube_indices(i, j, k);
        for di in 0..2 {
            for dj in 0..2 {
                for dk in 0..2 {
                    let expected = data.perm_x[(i % 256 + di) % 256]
                        ^ data.perm_y[(j % 256 + dj) % 256]
                        ^ data.perm_z[(k % 256 + dk) % 256];
                    assert_eq!(cube[di][dj][dk], expected);
                    assert!(cube[di][dj][dk] < 256);
                }
            }
        }
    }
}

#[test]
fn permute_with_follows_the_draws() {
    let mut v = vec![0, 1, 2, 3];
    permute_with(&mut v, &vec![0, 0, 1, 0]);
    assert_eq!(v, vec![2, 3, 1, 0]);

    let mut w = vec![7, 8, 9];
    permute_with(&mut w, &vec![0, 1, 2]);
    assert_eq!(w, vec![7, 8, 9]);

    let mut u = vec![4, 5, 6, 7, 8];
    permute_with(&mut u, &vec![0, 0, 0, 0, 0]);
    assert_eq!(u, vec![5, 6, 7, 8, 4]);
}
