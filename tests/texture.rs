use rand::rngs::StdRng;
use rand::SeedableRng;
use ray_tracing::texture::{generate_perm, lattice_index, lattice_parity_even, wrap_index};

fn assert_permutation(p: &[usize], n: usize) {
    assert_eq!(p.len(), n);
    let mut seen = vec![false; n];
    for &v in p {
        assert!(v < n);
        assert!(!seen[v]);
        seen[v] = true;
    }
}

#[test]
fn generate_perm_gives_permutations() {
    let mut rng = StdRng::seed_from_u64(7);
    for n in [0usize, 1, 2, 3, 256] {
        let p = generate_perm(&mut rng, n);
        assert_permutation(&p, n);
    }
}

#[test]
fn generate_perm_moves_every_entry() {
    let mut rng = StdRng::seed_from_u64(99);
    let p = generate_perm(&mut rng, 256);
    assert!(p.iter().enumerate().all(|(i, &v)| i != v));
}

#[test]
fn generate_perm_is_deterministic_per_seed() {
    let a = generate_perm(&mut StdRng::seed_from_u64(3), 64);
    let b = generate_perm(&mut StdRng::seed_from_u64(3), 64);
    assert_eq!(a, b);
}

#[test]
fn wrap_index_wraps_negative_and_large() {
    assert_eq!(wrap_index(-1, 0), 255);
    assert_eq!(wrap_index(-1, 1), 0);
    assert_eq!(wrap_index(255, 1), 0);
    assert_eq!(wrap_index(300, 0), 44);
    assert_eq!(wrap_index(i32::MAX, 1), 0);
    assert_eq!(wrap_index(i32::MIN, 0), 0);
}

#[test]
fn lattice_index_xors_entries() {
    let ident: Vec<usize> = (0..256).collect();
    let rev: Vec<usize> = (0..256).rev().collect();
    assert_eq!(lattice_index(&ident, &ident, &ident, 1, 2, 4, 0, 0, 0), 1 ^ 2 ^ 4);
    assert_eq!(lattice_index(&ident, &rev, &ident, 1, 2, 4, 1, 1, 1), 2 ^ (255 - 3) ^ 5);
    assert_eq!(lattice_index(&ident, &ident, &ident, -1, 0, 0, 0, 0, 0), 255);
}

#[test]
fn parity_of_lattice_cells() {
    assert!(lattice_parity_even(0, 0, 0));
    assert!(!lattice_parity_even(1, 0, 0));
    assert!(lattice_parity_even(-1, 1, 0));
    assert!(!lattice_parity_even(-1, 0, 0));
    assert!(lattice_parity_even(i32::MAX, i32::MAX, 0));
    assert!(!lattice_parity_even(i32::MIN, i32::MAX, 0));
}
