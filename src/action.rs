use vstd::prelude::*;

verus! {

/// The closed set of event kinds that a metric can record.
#[derive(Debug, Clone, Copy, PartialEq, Eq, Structural)]
pub enum Action {
    SuccessCardToTable,
    FailCardToTable,
    WonGame,
    LostGame,
    AbandonedGame,
}

impl Action {
    /// Tells whether `self` occurs in `actions`.
    pub fn is_in(&self, actions: &Vec<Action>) -> (r: bool)
        ensures
            r == actions@.contains(*self),
    {
        let mut i: usize = 0;
        while i < actions.len()
            invariant
                0 <= i <= actions@.len(),
                forall|j: int| 0 <= j < i ==> actions@[j] != *self,
            decreases actions@.len() - i,
        {
            if actions[i] == *self {
                return true;
            }
            i = i + 1;
        }
        false
    }
}

} // verus!
