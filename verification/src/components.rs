//! What the things of the world are made of, as far as the decisions in
//! [`crate::systems`] read it.

use rand::seq::SliceRandom;
use rand::thread_rng;
use vstd::prelude::*;

verus! {

/// What a ship does by itself: a set of states, and the two it was in last.
pub struct Ai {
    pub states: Vec<AiState>,
    pub current_state_index: usize,
    pub previous_state_index: usize,
}

/// One state: what the ship does in it, and when it leaves it. The
/// transitions are tried in their order.
pub struct AiState {
    pub transitions: Vec<(StateQuery, usize)>,
    pub action: Action,
}

/// A condition on the surroundings of a ship, with a distance.
#[derive(Clone, Copy, Debug, Hash, PartialEq, Eq, Structural)]
pub enum StateQuery {
    TargetNearby(u32),
    TargetNotNearby(u32),
}

#[derive(Clone, Copy, Debug, PartialEq, Eq, Structural)]
pub enum Action {
    Patrol,
    Chase,
}

/// Goods by kind, with the tons of each.
#[derive(Default)]
pub struct Cargo {
    pub items: Vec<(ItemType, u32)>,
}

#[derive(Eq, PartialEq, Hash, Clone, Copy, Debug, Structural)]
pub enum ItemType {
    Rum,
    Sugar,
    Whiskey,
}

pub struct Port {
    pub name: String,
}

#[derive(Default)]
pub struct Selected;

#[derive(Default)]
pub struct Controllable;

#[derive(Default)]
pub struct Affiliation {
    pub name: String,
}

#[derive(Default)]
pub struct Pirate;

impl Ai {
    /// Both states that the indices name exist.
    pub open spec fn wf(&self) -> bool {
        self.current_state_index < self.states@.len() && self.previous_state_index
            < self.states@.len()
    }

    /// The state the ship is in.
    pub fn current_state(&self) -> (state: &AiState)
        requires
            self.current_state_index < self.states@.len(),
        ensures
            *state == self.states@[self.current_state_index as int],
    {
        &self.states[self.current_state_index]
    }

    /// The state the ship was in before.
    pub fn previous_state(&self) -> (state: &AiState)
        requires
            self.previous_state_index < self.states@.len(),
        ensures
            *state == self.states@[self.previous_state_index as int],
    {
        &self.states[self.previous_state_index]
    }
}

/// `SliceRandom::choose` with the generator of the thread: one of
/// `choices`, no matter which; `None` exactly where there is none to
/// choose from.
#[verifier::external_body]
fn choose_from(choices: &Vec<ItemType>) -> (chosen: Option<ItemType>)
    ensures
        chosen is None <==> choices@.len() == 0,
        chosen matches Some(item) ==> choices@.contains(item),
{
    choices.choose(&mut thread_rng()).copied()
}

impl ItemType {
    /// A kind of goods, chosen by chance among sugar, rum and whiskey.
    pub fn pick() -> ItemType {
        let choices = vec![ItemType::Sugar, ItemType::Rum, ItemType::Whiskey];
        Self::of_choice(choose_from(&choices))
    }

    /// The kind of goods that a choice gave: the kind that was chosen, or
    /// sugar where none was.
    pub fn of_choice(chosen: Option<ItemType>) -> (item: ItemType)
        ensures
            item == match chosen {
                Some(kind) => kind,
                None => ItemType::Sugar,
            },
    {
        match chosen {
            Some(kind) => kind,
            None => ItemType::Sugar,
        }
    }

    /// The kind of goods with the number `index`, counted round.
    pub open spec fn numbered(index: int) -> ItemType {
        if index % 3 == 0 {
            ItemType::Sugar
        } else if index % 3 == 1 {
            ItemType::Rum
        } else {
            ItemType::Whiskey
        }
    }

    /// The kind of goods with the number `index`, counted round: sugar,
    /// rum, whiskey.
    pub fn from_index(index: usize) -> (item: ItemType)
        ensures
            item == ItemType::numbered(index as int),
    {
        if index % 3 == 0 {
            ItemType::Sugar
        } else if index % 3 == 1 {
            ItemType::Rum
        } else {
            ItemType::Whiskey
        }
    }

    /// The name of the kind.
    pub fn name(&self) -> (name: &'static str)
        ensures
            name@ == match *self {
                ItemType::Rum => "Rum"@,
                ItemType::Sugar => "Sugar"@,
                ItemType::Whiskey => "Whiskey"@,
            },
    {
        match self {
            ItemType::Rum => "Rum",
            ItemType::Sugar => "Sugar",
            ItemType::Whiskey => "Whiskey",
        }
    }
}

} // verus!
