use quantum_sandbox::{hamiltonian_coupling, mode_kept, Coupling, ExperimentStore};

#[test]
fn store_starts_empty() {
    let store: ExperimentStore<u32> = ExperimentStore::new();
    assert!(store.experiment().is_none());
}

#[test]
fn successful_simulation_is_published() {
    let mut store = ExperimentStore::new();
    assert!(store.publish(Some(7u32)));
    assert_eq!(store.experiment(), Some(&7));
    assert!(store.publish(Some(9u32)));
    assert_eq!(store.experiment(), Some(&9));
}

#[test]
fn failed_simulation_leaves_store_unchanged() {
    let mut store = ExperimentStore::new();
    store.publish(Some(7u32));
    assert!(!store.publish(None));
    assert_eq!(store.experiment(), Some(&7));
}

#[test]
fn restart_after_simulation_empties_store() {
    let mut store = ExperimentStore::new();
    store.publish(Some(7u32));
    store.restart();
    assert!(store.experiment().is_none());
}

#[test]
fn hamiltonian_is_tridiagonal() {
    assert_eq!(hamiltonian_coupling(0, 0, 4), Coupling::Diagonal);
    assert_eq!(hamiltonian_coupling(3, 3, 4), Coupling::Diagonal);
    assert_eq!(hamiltonian_coupling(1, 0, 4), Coupling::Neighbour);
    assert_eq!(hamiltonian_coupling(1, 2, 4), Coupling::Neighbour);
    assert_eq!(hamiltonian_coupling(3, 2, 4), Coupling::Neighbour);
    assert_eq!(hamiltonian_coupling(0, 2, 4), Coupling::Zero);
    assert_eq!(hamiltonian_coupling(3, 4, 4), Coupling::Zero);
    assert_eq!(hamiltonian_coupling(0, 3, 4), Coupling::Zero);
}

#[test]
fn upper_half_of_modes_is_cut() {
    assert!(mode_kept(0, 64));
    assert!(mode_kept(32, 64));
    assert!(!mode_kept(33, 64));
    assert!(!mode_kept(63, 64));
    assert!(mode_kept(2, 5));
    assert!(!mode_kept(3, 5));
}
