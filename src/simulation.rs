use vstd::prelude::*;

verus! {

/// Where an entry of the discretized Hamiltonian lies.
#[derive(Clone, Copy, Debug, PartialEq, Eq, Structural)]
pub enum Coupling {
    /// On the diagonal: the kinetic constant plus the potential there.
    Diagonal,
    /// Next to the diagonal: the hopping term.
    Neighbour,
    /// Anywhere else.
    Zero,
}

pub open spec fn coupling_of(i: int, j: int, n: int) -> Coupling {
    if 0 <= i < n && 0 <= j < n && i == j {
        Coupling::Diagonal
    } else if 0 <= i < n && 0 <= j < n && (j == i - 1 || j == i + 1) {
        Coupling::Neighbour
    } else {
        Coupling::Zero
    }
}

/// The kind of entry `(i, j)` of the tridiagonal `n × n` Hamiltonian.
pub fn hamiltonian_coupling(i: usize, j: usize, n: usize) -> (r: Coupling)
    ensures
        r == coupling_of(i as int, j as int, n as int),
{
    if i >= n || j >= n {
        Coupling::Zero
    } else if i == j {
        Coupling::Diagonal
    } else if (i > 0 && j == i - 1) || j == i + 1 {
        Coupling::Neighbour
    } else {
        Coupling::Zero
    }
}

/// Whether eigenmode `index` takes part in time evolution at `resolution`
/// points: the upper half of the eigenbasis is cut as a high-frequency filter.
pub fn mode_kept(index: u32, resolution: u32) -> (r: bool)
    ensures
        r == (index <= resolution / 2),
{
    index <= resolution / 2
}

} // verus!
