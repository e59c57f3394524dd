use vstd::prelude::*;

use crate::application::repository::WorldId;

verus! {

/// Where the game goes once a save finishes; later variants outrank earlier ones.
#[derive(Debug, Clone, Copy, PartialEq, Eq, Structural, PartialOrd, Ord)]
pub enum SaveDestination {
    Background,
    MainMenu,
    Exit,
}

/// The rank of a destination: staying in game, then the main menu, then quitting.
pub open spec fn destination_rank(d: SaveDestination) -> int {
    match d {
        SaveDestination::Background => 0,
        SaveDestination::MainMenu => 1,
        SaveDestination::Exit => 2,
    }
}

/// The more urgent of two destinations.
pub open spec fn escalate(a: SaveDestination, b: SaveDestination) -> SaveDestination {
    if destination_rank(a) >= destination_rank(b) {
        a
    } else {
        b
    }
}

impl Default for SaveDestination {
    fn default() -> (result: SaveDestination)
        ensures
            result == SaveDestination::Background,
    {
        SaveDestination::Background
    }
}

/// What a save captured: the world's revision and the day clock.
#[derive(Debug, Clone, Copy, PartialEq, Eq, Structural)]
pub struct SaveVersion {
    pub world_revision: u64,
    pub day_time_ticks: u64,
}

impl Default for SaveVersion {
    fn default() -> (result: SaveVersion)
        ensures
            result == (SaveVersion { world_revision: 0, day_time_ticks: 0 }),
    {
        SaveVersion { world_revision: 0, day_time_ticks: 0 }
    }
}

/// One save in flight.
#[derive(Debug, PartialEq, Eq)]
pub struct SaveTicket {
    pub id: WorldId,
    pub version: SaveVersion,
    pub destination: SaveDestination,
}

impl Clone for SaveTicket {
    fn clone(&self) -> (result: SaveTicket)
        ensures
            result.id@ == self.id@,
            result.version == self.version,
            result.destination == self.destination,
    {
        SaveTicket { id: self.id.clone(), version: self.version, destination: self.destination }
    }
}

#[derive(Debug, Clone, Copy, PartialEq, Eq, Structural)]
pub enum SaveCompletion {
    Succeeded,
    Failed,
}

/// What the caller must do after telling the coordinator something.
#[derive(Debug, Clone, PartialEq, Eq)]
pub enum SaveDecision {
    Idle,
    Start(SaveTicket),
    Finish(SaveDestination),
    Failed(SaveDestination),
}

/// Runs at most one save at a time, folding requests that arrive meanwhile into it.
#[derive(Debug)]
pub struct SaveCoordinator {
    in_flight: Option<SaveTicket>,
}

impl SaveCoordinator {
    /// The save in flight, if any.
    pub closed spec fn spec_in_flight(&self) -> Option<SaveTicket> {
        self.in_flight
    }

    /// Asks for a save. With none in flight it starts one for `id` at `version`; otherwise the
    /// save in flight keeps going and only takes on the more urgent destination.
    pub fn request(&mut self, id: WorldId, version: SaveVersion, destination: SaveDestination) -> (decision:
        SaveDecision)
        ensures
            match old(self).spec_in_flight() {
                Some(t) => {
                    &&& decision == SaveDecision::Idle
                    &&& final(self).spec_in_flight() matches Some(n) && n.id@ == t.id@ && n.version
                        == t.version && n.destination == escalate(t.destination, destination)
                },
                None => {
                    &&& decision matches SaveDecision::Start(s) && s.id@ == id@ && s.version == version
                        && s.destination == destination
                    &&& final(self).spec_in_flight() matches Some(n) && n.id@ == id@ && n.version == version
                        && n.destination == destination
                },
            },
    {
        match self.in_flight.take() {
            Some(ticket) => {
                let escalated = if destination_at_least(ticket.destination, destination) {
                    ticket.destination
                } else {
                    destination
                };
                self.in_flight = Some(SaveTicket { id: ticket.id, version: ticket.version, destination: escalated });
                SaveDecision::Idle
            },
            None => {
                let ticket = SaveTicket { id, version, destination };
                let started = ticket.clone();
                self.in_flight = Some(ticket);
                SaveDecision::Start(started)
            },
        }
    }

    /// The save in flight, if any.
    pub fn ticket(&self) -> (result: Option<&SaveTicket>)
        ensures
            match self.spec_in_flight() {
                Some(t) => result == Some(&t),
                None => result is None,
            },
    {
        match &self.in_flight {
            Some(ticket) => Some(ticket),
            None => None,
        }
    }

    /// Reports how the save in flight ended. A failure is reported with its destination. A
    /// success that leaves the game, taken of a world that has changed since, starts another
    /// save of the current version so the latest state is on disk before leaving; otherwise
    /// the save is finished.
    pub fn complete(&mut self, completion: SaveCompletion, current_version: SaveVersion) -> (decision: SaveDecision)
        ensures
            match old(self).spec_in_flight() {
                None => decision == SaveDecision::Idle && final(self).spec_in_flight() is None,
                Some(t) => if completion == SaveCompletion::Failed {
                    decision == SaveDecision::Failed(t.destination) && final(self).spec_in_flight() is None
                } else if t.destination != SaveDestination::Background && current_version != t.version {
                    &&& decision matches SaveDecision::Start(s) && s.id@ == t.id@ && s.version == current_version
                        && s.destination == t.destination
                    &&& final(self).spec_in_flight() matches Some(n) && n.id@ == t.id@ && n.version
                        == current_version && n.destination == t.destination
                } else {
                    decision == SaveDecision::Finish(t.destination) && final(self).spec_in_flight() is None
                },
            },
    {
        let ticket = match self.in_flight.take() {
            Some(ticket) => ticket,
            None => return SaveDecision::Idle,
        };
        if completion == SaveCompletion::Failed {
            return SaveDecision::Failed(ticket.destination);
        }
        if ticket.destination != SaveDestination::Background && current_version != ticket.version {
            return self.request(ticket.id, current_version, ticket.destination);
        }
        SaveDecision::Finish(ticket.destination)
    }
}

impl Default for SaveCoordinator {
    fn default() -> (result: SaveCoordinator)
        ensures
            result.spec_in_flight() is None,
    {
        SaveCoordinator { in_flight: None }
    }
}

/// The rank of a destination, as a number.
fn rank_of(d: SaveDestination) -> (result: u8)
    ensures
        result == destination_rank(d),
{
    match d {
        SaveDestination::Background => 0,
        SaveDestination::MainMenu => 1,
        SaveDestination::Exit => 2,
    }
}

/// Whether destination `a` is at least as urgent as `b`.
fn destination_at_least(a: SaveDestination, b: SaveDestination) -> (result: bool)
    ensures
        result == (destination_rank(a) >= destination_rank(b)),
{
    rank_of(a) >= rank_of(b)
}

/// A destination never drops while a save is in flight: folding in another request leaves the
/// more urgent of the two.
pub proof fn lemma_destination_escalates(current: SaveDestination, requested: SaveDestination)
    ensures
        destination_rank(escalate(current, requested)) >= destination_rank(current),
        destination_rank(escalate(current, requested)) >= destination_rank(requested),
        escalate(current, requested) == current || escalate(current, requested) == requested,
{
}

/// Day-clock ticks, one minute of play, after which a change of the clock alone is worth a
/// background save.
pub const CLOCK_AUTOSAVE_TICKS: u64 = 1_200;

/// Whether the world should be saved in the background: a block change asks for it at once,
/// while the day clock alone waits until it has run `CLOCK_AUTOSAVE_TICKS` past the saved one.
pub fn needs_autosave(current: SaveVersion, saved: SaveVersion) -> (result: bool)
    ensures
        result == (current.world_revision != saved.world_revision || current.day_time_ticks - saved.day_time_ticks
            >= CLOCK_AUTOSAVE_TICKS),
{
    current.world_revision != saved.world_revision || current.day_time_ticks.saturating_sub(saved.day_time_ticks)
        >= CLOCK_AUTOSAVE_TICKS
}

} // verus!
