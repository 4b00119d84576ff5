//! A scripted peer: a connection that expects a fixed sequence of reads and
//! writes, for exercising the peer loop.

use vstd::prelude::*;
use vstd::std_specs::cmp::PartialEqSpec;

verus! {

/// What went wrong on a scripted connection.
#[derive(Debug, Clone, Copy, PartialEq, Eq, Structural)]
pub enum MockError {
    WrongSend,
    UnexpectedSend,
    UnexpectedRead,
}

impl MockError {
    /// The name of the error.
    pub fn name(&self) -> (s: &'static str)
        ensures
            s@ == match self {
                MockError::WrongSend => "WrongSend"@,
                MockError::UnexpectedSend => "UnexpectedSend"@,
                MockError::UnexpectedRead => "UnexpectedRead"@,
            },
    {
        match self {
            MockError::WrongSend => "WrongSend",
            MockError::UnexpectedSend => "UnexpectedSend",
            MockError::UnexpectedRead => "UnexpectedRead",
        }
    }
}

/// One step of the script: the peer hands over an item, or the node is
/// expected to send one.
#[derive(Debug)]
pub enum Action<Item> {
    Read(Item),
    Write(Item),
}

impl<Item: Clone> Clone for Action<Item> {
    fn clone(&self) -> (c: Self)
        ensures
            (*self is Read) == (c is Read),
    {
        match self {
            Action::Read(item) => Action::Read(item.clone()),
            Action::Write(item) => Action::Write(item.clone()),
        }
    }
}

/// A scripted connection. It holds the steps that are still to come, the
/// next one last.
#[derive(Debug)]
pub struct Mock<Item> {
    pub actions: Vec<Action<Item>>,
}

/// What sending `item` gives when `next` is the step that the script is at.
pub open spec fn send_outcome<Item: PartialEq>(next: Option<Action<Item>>, item: Item) -> Result<
    (),
    MockError,
> {
    match next {
        Some(Action::Write(expected)) => if item.eq_spec(&expected) {
            Ok(())
        } else {
            Err(MockError::WrongSend)
        },
        _ => Err(MockError::UnexpectedSend),
    }
}

/// What reading gives when `next` is the step that the script is at.
pub open spec fn read_outcome<Item>(next: Option<Action<Item>>) -> Result<Item, MockError> {
    match next {
        Some(Action::Read(item)) => Ok(item),
        _ => Err(MockError::UnexpectedRead),
    }
}

/// The step that a script is at: the last of the steps that it holds.
pub open spec fn next_action<Item>(actions: Seq<Action<Item>>) -> Option<Action<Item>> {
    if actions.len() == 0 {
        None
    } else {
        Some(actions.last())
    }
}

/// The steps that are left when one was taken.
pub open spec fn remaining_actions<Item>(actions: Seq<Action<Item>>) -> Seq<Action<Item>> {
    if actions.len() == 0 {
        actions
    } else {
        actions.drop_last()
    }
}

impl<Item> Mock<Item> {
    /// The connection that follows the script `actions` from its first step
    /// to its last.
    pub fn new(actions: Vec<Action<Item>>) -> (mock: Mock<Item>)
        ensures
            mock.actions@ == actions@.reverse(),
    {
        let mut actions = actions;
        let ghost script = actions@;
        let mut reversed: Vec<Action<Item>> = Vec::new();
        while actions.len() > 0
            invariant
                actions@.len() <= script.len(),
                actions@ == script.take(actions@.len() as int),
                reversed@.len() == script.len() - actions@.len(),
                forall|i: int|
                    0 <= i < reversed@.len() ==> reversed@[i] == script[script.len() - 1 - i],
            decreases actions@.len(),
        {
            let ghost before = actions@;
            let last = actions.pop();
            match last {
                Some(action) => {
                    reversed.push(action);
                },
                None => {},
            }
            assert(actions@ =~= script.take(actions@.len() as int));
        }
        assert(reversed@ =~= script.reverse());
        Mock { actions: reversed }
    }

    /// The node sends `item`: the script moves on by one step, and the send
    /// succeeds where that step was the write of an equal item.
    pub fn start_send(&mut self, item: Item) -> (r: Result<(), MockError>) where Item: PartialEq
        ensures
            final(self).actions@ == remaining_actions(old(self).actions@),
            Item::obeys_eq_spec() ==> r == send_outcome(next_action(old(self).actions@), item),
            old(self).actions@.len() == 0 ==> r == Err::<(), MockError>(MockError::UnexpectedSend),
    {
        match self.actions.pop() {
            Some(Action::Write(expected)) => {
                if item == expected {
                    Ok(())
                } else {
                    Err(MockError::WrongSend)
                }
            },
            _ => Err(MockError::UnexpectedSend),
        }
    }

    /// The node reads: the script moves on by one step, and hands over the
    /// item where that step was a read.
    pub fn poll_next(&mut self) -> (r: Result<Item, MockError>)
        ensures
            final(self).actions@ == remaining_actions(old(self).actions@),
            r == read_outcome(next_action(old(self).actions@)),
    {
        match self.actions.pop() {
            Some(Action::Read(item)) => Ok(item),
            _ => Err(MockError::UnexpectedRead),
        }
    }
}

} // verus!
