use vstd::prelude::*;

verus! {

/// A task as the index sees it: an identity, a rank (its priority) and an
/// opaque state tag. Two tasks with the same `id` are the same task.
#[derive(Debug, Clone, Copy, PartialEq, Eq, Structural)]
pub struct Task {
    pub id: i32,
    pub rank: i32,
    pub state: i32,
}

impl Task {
    pub fn new(id: i32, rank: i32, state: i32) -> (t: Task)
        ensures
            t.id == id,
            t.rank == rank,
            t.state == state,
    {
        Task { id, rank, state }
    }

    pub fn get_rank(&self) -> (r: i32)
        ensures
            r == self.rank,
    {
        self.rank
    }

    pub fn get_id(&self) -> (r: i32)
        ensures
            r == self.id,
    {
        self.id
    }

    pub fn get_state(&self) -> (r: i32)
        ensures
            r == self.state,
    {
        self.state
    }
}

} // verus!
