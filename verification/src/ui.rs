//! The action bar: which action a button stands for.

use vstd::prelude::*;

verus! {

/// What the player asks a selected unit to do.
#[derive(Clone, Copy, PartialEq, Eq, Debug, Structural)]
pub enum PlayerAction {
    Move,
    Wait,
}

/// The action an action-bar button triggers.
#[derive(Clone, Copy, PartialEq, Eq, Debug, Structural)]
pub enum ButtonAction {
    Move,
    Wait,
}

/// The action a button stands for.
pub open spec fn action_for(button: ButtonAction) -> PlayerAction {
    match button {
        ButtonAction::Move => PlayerAction::Move,
        ButtonAction::Wait => PlayerAction::Wait,
    }
}

impl<'a> From<&'a ButtonAction> for PlayerAction {
    fn from(value: &'a ButtonAction) -> (action: Self) {
        match value {
            ButtonAction::Move => Self::Move,
            ButtonAction::Wait => Self::Wait,
        }
    }
}

impl<'a> vstd::std_specs::convert::FromSpecImpl<&'a ButtonAction> for PlayerAction {
    open spec fn obeys_from_spec() -> bool {
        true
    }

    open spec fn from_spec(v: &'a ButtonAction) -> Self {
        action_for(*v)
    }
}

/// The actions asked by the buttons whose interaction changed: one per
/// pressed button, in order; buttons merely hovered or released ask nothing.
pub fn handle_move_button(buttons: &Vec<(bool, ButtonAction)>) -> (actions: Vec<PlayerAction>)
    ensures
        actions@ == buttons@.filter(|b: (bool, ButtonAction)| b.0).map_values(
            |b: (bool, ButtonAction)| action_for(b.1),
        ),
{
    let mut actions: Vec<PlayerAction> = Vec::new();
    let mut i: usize = 0;
    while i < buttons.len()
        invariant
            i <= buttons@.len(),
            actions@ == buttons@.take(i as int).filter(|b: (bool, ButtonAction)| b.0).map_values(
                |b: (bool, ButtonAction)| action_for(b.1),
            ),
        decreases buttons.len() - i,
    {
        let (pressed, action) = buttons[i];
        proof {
            assert(buttons@.take(i + 1).drop_last() =~= buttons@.take(i as int));
            reveal_with_fuel(Seq::filter, 1);
        }
        if pressed {
            actions.push(PlayerAction::from(&action));
        }
        assert(actions@ =~= buttons@.take(i + 1).filter(|b: (bool, ButtonAction)| b.0).map_values(
            |b: (bool, ButtonAction)| action_for(b.1),
        ));
        i = i + 1;
    }
    assert(buttons@.take(buttons@.len() as int) =~= buttons@);
    actions
}

} // verus!
