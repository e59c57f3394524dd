use vstd::prelude::*;

use crate::application::repository::WorldId;
use crate::application::saving::SaveVersion;
use crate::application::snapshot::WorldSnapshot;

verus! {

/// Identifies one run of a world, so work started for an earlier run can be told apart.
#[derive(Debug, Clone, Copy, PartialEq, Eq, Structural, Hash, PartialOrd, Ord)]
pub struct SessionInstanceId(u64);

impl SessionInstanceId {
    pub closed spec fn spec_get(&self) -> u64 {
        self.0
    }

    pub fn new(value: u64) -> (result: SessionInstanceId)
        ensures
            result.spec_get() == value,
    {
        SessionInstanceId(value)
    }

    pub fn get(self) -> (result: u64)
        ensures
            result == self.spec_get(),
    {
        self.0
    }
}

/// Hands out session instance identifiers, starting at `1`.
#[derive(Debug)]
pub struct SessionInstanceCounter(u64);

impl SessionInstanceCounter {
    /// The last identifier handed out, `0` before the first.
    pub closed spec fn spec_last(&self) -> u64 {
        self.0
    }

    /// The next identifier: one more than the last. The counter cannot run past `u64::MAX`.
    pub fn next_id(&mut self) -> (result: SessionInstanceId)
        requires
            old(self).spec_last() < u64::MAX,
        ensures
            result.spec_get() == old(self).spec_last() + 1,
            final(self).spec_last() == result.spec_get(),
    {
        self.0 = self.0 + 1;
        SessionInstanceId::new(self.0)
    }
}

impl Default for SessionInstanceCounter {
    fn default() -> (result: SessionInstanceCounter)
        ensures
            result.spec_last() == 0,
    {
        SessionInstanceCounter(0)
    }
}

/// The world a session plays.
#[derive(Debug, Clone)]
pub struct WorldSession {
    pub instance_id: SessionInstanceId,
    pub id: WorldId,
    pub name: String,
    pub seed: u64,
    pub generator_version: u32,
    pub created_at_unix_s: u64,
    pub saved_version: SaveVersion,
}

/// A world chosen to be played, with the snapshot it starts from.
#[derive(Debug)]
pub struct PendingWorld {
    pub id: WorldId,
    pub snapshot: WorldSnapshot,
}

} // verus!
