use vstd::prelude::*;

verus! {

/// The slot for the experiment currently loaded: empty at start, filled by
/// a successful simulation, emptied by a restart.
pub struct ExperimentStore<E> {
    current: Option<E>,
}

impl<E> View for ExperimentStore<E> {
    type V = Option<E>;

    closed spec fn view(&self) -> Option<E> {
        self.current
    }
}

impl<E> ExperimentStore<E> {
    /// An empty store.
    pub fn new() -> (r: Self)
        ensures
            r@ is None,
    {
        ExperimentStore { current: None }
    }

    /// Records the outcome of a simulation: a new experiment replaces the
    /// current one whole; a failed one (`None`) leaves the store as it was.
    /// Returns whether the store changed.
    pub fn publish(&mut self, outcome: Option<E>) -> (r: bool)
        ensures
            r == outcome is Some,
            outcome is Some ==> final(self)@ == outcome,
            outcome is None ==> final(self)@ == old(self)@,
    {
        match outcome {
            Some(e) => {
                self.current = Some(e);
                true
            },
            None => false,
        }
    }

    /// Drops the current experiment.
    pub fn restart(&mut self)
        ensures
            final(self)@ is None,
    {
        self.current = None;
    }

    /// The current experiment, if one is loaded.
    pub fn experiment(&self) -> (r: Option<&E>)
        ensures
            r is Some <==> self@ is Some,
            r is Some ==> *r->Some_0 == self@->Some_0,
    {
        match &self.current {
            Some(e) => Some(e),
            None => None,
        }
    }
}

} // verus!
