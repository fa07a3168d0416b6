//! The integer side of the procedural textures: the parity of a checker cell,
//! and for lattice noise the permutation tables and the hash of a lattice
//! corner into the table of gradients.
use vstd::prelude::*;

verus! {

/// Whether the sum of three lattice coordinates is even: the colour choice of
/// a checker cell.
pub fn lattice_parity_even(x: i32, y: i32, z: i32) -> (r: bool)
    ensures
        r == ((x + y + z) % 2 == 0),
{
    let sum: i64 = x as i64 + y as i64 + z as i64;
    sum % 2 == 0
}

#[verifier::external_type_specification]
#[verifier::external_body]
pub struct ExStdRng(rand::rngs::StdRng);

/// Relies on rand's `Rng::gen_range` over the range `0..bound`: it returns a
/// value of that range, and panics only where the range is empty.
#[verifier::external_body]
fn random_below(rng: &mut rand::rngs::StdRng, bound: usize) -> (r: usize)
    requires
        bound > 0,
    ensures
        r < bound,
{
    rand::Rng::gen_range(rng, 0..bound)
}

/// Whether `p` is a permutation of `0..n`.
pub open spec fn is_permutation(p: Seq<usize>, n: nat) -> bool {
    &&& p.len() == n
    &&& forall|k: int| 0 <= k < n ==> p[k] < n
    &&& forall|a: int, b: int| 0 <= a < b < n ==> p[a] != p[b]
}

/// A random permutation of `0..n`: starting from the identity, each position
/// from the last down to the second is swapped with a random position below it.
pub fn generate_perm(rng: &mut rand::rngs::StdRng, n: usize) -> (r: Vec<usize>)
    ensures
        is_permutation(r@, n as nat),
{
    let mut perm: Vec<usize> = Vec::new();
    let mut k: usize = 0;
    while k < n
        invariant
            k <= n,
            perm@.len() == k,
            forall|j: int| 0 <= j < k ==> perm@[j] == j,
        decreases n - k,
    {
        perm.push(k);
        k += 1;
    }
    let mut i: usize = n;
    while i > 1
        invariant
            i <= n,
            is_permutation(perm@, n as nat),
        decreases i,
    {
        i -= 1;
        let target = random_below(rng, i);
        let tmp = perm[i];
        let other = perm[target];
        perm.set(i, other);
        perm.set(target, tmp);
    }
    perm
}

/// The lattice coordinate `c` taken modulo 256.
pub open spec fn wrap256(c: int) -> int {
    c % 256
}

/// `c + d` modulo 256, as an index into a table of 256 entries.
pub fn wrap_index(c: i32, d: i32) -> (r: usize)
    requires
        0 <= d <= 1,
    ensures
        r == wrap256(c + d),
        r < 256,
{
    let s: i64 = c as i64 + d as i64;
    let m: i64 = s % 256;
    if m < 0 {
        (m + 256) as usize
    } else {
        m as usize
    }
}

/// The gradient index of lattice corner `(i + di, j + dj, k + dk)`: the three
/// permutation entries of its wrapped coordinates, combined by exclusive or.
pub fn lattice_index(
    perm_x: &Vec<usize>,
    perm_y: &Vec<usize>,
    perm_z: &Vec<usize>,
    i: i32,
    j: i32,
    k: i32,
    di: i32,
    dj: i32,
    dk: i32,
) -> (r: usize)
    requires
        is_permutation(perm_x@, 256),
        is_permutation(perm_y@, 256),
        is_permutation(perm_z@, 256),
        0 <= di <= 1,
        0 <= dj <= 1,
        0 <= dk <= 1,
    ensures
        r == perm_x@[wrap256(i + di)] ^ perm_y@[wrap256(j + dj)] ^ perm_z@[wrap256(k + dk)],
        r < 256,
{
    let a = perm_x[wrap_index(i, di)];
    let b = perm_y[wrap_index(j, dj)];
    let c = perm_z[wrap_index(k, dk)];
    assert(a ^ b < 256 && (a ^ b) ^ c < 256) by (bit_vector)
        requires
            a < 256,
            b < 256,
            c < 256,
    ;
    a ^ b ^ c
}

} // verus!
