//! Cycling through the completions that were offered for a document.
//!
//! Each completion is a transaction against the document as it was when the
//! completions were asked for. One of them is applied at any time; stepping
//! to another means undoing the one that is applied and applying the other.

use ropey::Rope;
use vstd::prelude::*;

verus! {

/// `ropey::Rope`, a text. The picker keeps one and looks at none of it.
#[verifier::external_type_specification]
#[verifier::external_body]
pub struct ExRope(Rope);

/// What reaches the picker from the keyboard and elsewhere.
#[derive(Clone, Copy, Debug, PartialEq, Eq, Structural)]
pub enum PickerEvent {
    /// Control and `n`: the next completion.
    CtrlN,
    /// Control and `m`: the previous completion.
    CtrlM,
    /// The enter key: keep the completion that is applied.
    Enter,
    /// The escape key: give the completions up.
    Esc,
    /// Any other key.
    OtherKey,
    /// An event that is no key press.
    NotKey,
}

/// What is to be done with the document and the picker after an event.
#[derive(Debug)]
pub enum PickerAction<T> {
    /// The event is not for the picker.
    Ignored,
    /// The event is used up and nothing is to be done.
    Consumed,
    /// Undo `undo`, which is applied, and apply `apply`.
    UndoThenApply { undo: T, apply: T },
    /// Take the picker with this name away.
    Remove { id: &'static str },
    /// Undo `undo`, which is applied, and take the picker with this name away.
    UndoThenRemove { undo: T, id: &'static str },
}

pub struct CopilotCompletionPicker<T> {
    original: Rope,
    cur: usize,
    transactions: Vec<T>,
    id: &'static str,
}

impl<T: Clone> CopilotCompletionPicker<T> {
    /// The transactions to pick from.
    pub closed spec fn transactions(&self) -> Seq<T> {
        self.transactions@
    }

    /// Position of the transaction that is applied.
    pub closed spec fn current(&self) -> int {
        self.cur as int
    }

    /// The document as it was before any of the transactions.
    pub closed spec fn original(&self) -> Rope {
        self.original
    }

    /// The name under which the picker is known.
    pub closed spec fn name(&self) -> &'static str {
        self.id
    }

    /// One of the transactions is applied.
    pub open spec fn wf(&self) -> bool {
        0 <= self.current() < self.transactions().len()
    }

    /// A picker over `transactions` together with the first of them, which
    /// is to be applied. There is no picker without transactions.
    pub fn new(original: Rope, transactions: Vec<T>) -> (r: Option<(Self, T)>)
        ensures
            r is None <==> transactions@.len() == 0,
            r matches Some((picker, first)) ==> {
                &&& picker.wf()
                &&& picker.transactions() == transactions@
                &&& picker.current() == 0
                &&& picker.original() == original
                &&& picker.name()@ == "copilot-picker"@
                &&& cloned(transactions@[0], first)
            },
    {
        if transactions.len() == 0 {
            return None;
        }
        let first = transactions[0].clone();
        Some((Self { original, cur: 0, transactions, id: "copilot-picker" }, first))
    }

    /// Steps to the next transaction. Returns the transaction that was
    /// applied so far and the one to apply in its place; nothing at the last
    /// transaction, where the picker stays.
    pub fn next(&mut self) -> (r: Option<(T, T)>)
        requires
            old(self).wf(),
        ensures
            final(self).wf(),
            final(self).transactions() == old(self).transactions(),
            final(self).original() == old(self).original(),
            final(self).name() == old(self).name(),
            r is None <==> old(self).current() == old(self).transactions().len() - 1,
            r is None ==> final(self).current() == old(self).current(),
            r matches Some((applied, next)) ==> {
                &&& final(self).current() == old(self).current() + 1
                &&& cloned(old(self).transactions()[old(self).current()], applied)
                &&& cloned(old(self).transactions()[old(self).current() + 1], next)
            },
    {
        if self.cur == self.transactions.len() - 1 {
            return None;
        }
        self.cur += 1;
        Some((self.transactions[self.cur - 1].clone(), self.transactions[self.cur].clone()))
    }

    /// Steps to the previous transaction. Returns the transaction that was
    /// applied so far and the one to apply in its place; nothing at the
    /// first transaction, where the picker stays.
    pub fn prev(&mut self) -> (r: Option<(T, T)>)
        requires
            old(self).wf(),
        ensures
            final(self).wf(),
            final(self).transactions() == old(self).transactions(),
            final(self).original() == old(self).original(),
            final(self).name() == old(self).name(),
            r is None <==> old(self).current() == 0,
            r is None ==> final(self).current() == old(self).current(),
            r matches Some((applied, prev)) ==> {
                &&& final(self).current() == old(self).current() - 1
                &&& cloned(old(self).transactions()[old(self).current()], applied)
                &&& cloned(old(self).transactions()[old(self).current() - 1], prev)
            },
    {
        if self.cur == 0 {
            return None;
        }
        self.cur -= 1;
        Some((self.transactions[self.cur + 1].clone(), self.transactions[self.cur].clone()))
    }

    /// The name under which the picker is known.
    pub fn id(&self) -> (r: Option<&'static str>)
        ensures
            r == Some(self.name()),
    {
        Some(self.id)
    }

    /// The document as it was before any of the transactions.
    pub fn document(&self) -> (r: &Rope)
        ensures
            *r == self.original(),
    {
        &self.original
    }

    /// Position of the transaction that is applied.
    pub fn position(&self) -> (r: usize)
        ensures
            r == self.current(),
    {
        self.cur
    }

    /// What an event asks for. Control and `n` or `m` step to the next or
    /// the previous transaction, which is to replace the one that is
    /// applied; where there is none to step to, the key is used up all the
    /// same. Enter takes the picker away, escape does so after the applied
    /// transaction was undone. Any other key is used up; what is no key is
    /// not for the picker.
    pub fn handle_event(&mut self, event: PickerEvent) -> (action: PickerAction<T>)
        requires
            old(self).wf(),
        ensures
            final(self).wf(),
            final(self).transactions() == old(self).transactions(),
            final(self).original() == old(self).original(),
            final(self).name() == old(self).name(),
            final(self).current() == old(self).current() + step_of(
                event,
                old(self).current(),
                old(self).transactions().len() as int,
            ),
            match action {
                PickerAction::Ignored => event == PickerEvent::NotKey,
                PickerAction::Consumed => {
                    ||| event == PickerEvent::OtherKey
                    ||| (is_step(event) && final(self).current() == old(self).current())
                },
                PickerAction::UndoThenApply { undo, apply } => {
                    &&& is_step(event)
                    &&& final(self).current() != old(self).current()
                    &&& cloned(old(self).transactions()[old(self).current()], undo)
                    &&& cloned(old(self).transactions()[final(self).current()], apply)
                },
                PickerAction::Remove { id } => {
                    &&& event == PickerEvent::Enter
                    &&& id == old(self).name()
                },
                PickerAction::UndoThenRemove { undo, id } => {
                    &&& event == PickerEvent::Esc
                    &&& id == old(self).name()
                    &&& cloned(old(self).transactions()[old(self).current()], undo)
                },
            },
    {
        match event {
            PickerEvent::NotKey => PickerAction::Ignored,
            PickerEvent::CtrlN => update_picker(self.next()),
            PickerEvent::CtrlM => update_picker(self.prev()),
            PickerEvent::Enter => PickerAction::Remove { id: self.id },
            PickerEvent::Esc => PickerAction::UndoThenRemove {
                undo: self.transactions[self.cur].clone(),
                id: self.id,
            },
            PickerEvent::OtherKey => PickerAction::Consumed,
        }
    }
}

/// Whether the event asks for another transaction.
pub open spec fn is_step(event: PickerEvent) -> bool {
    event == PickerEvent::CtrlN || event == PickerEvent::CtrlM
}

/// By how much an event moves a picker that stands at `current` of `len`
/// transactions.
pub open spec fn step_of(event: PickerEvent, current: int, len: int) -> int {
    match event {
        PickerEvent::CtrlN => if current == len - 1 {
            0
        } else {
            1
        },
        PickerEvent::CtrlM => if current == 0 {
            0
        } else {
            -1
        },
        _ => 0,
    }
}

/// What is to be done after a step: the exchange of the two transactions,
/// or nothing where the picker stayed.
fn update_picker<T>(transactions: Option<(T, T)>) -> (action: PickerAction<T>)
    ensures
        match transactions {
            None => action is Consumed,
            Some((prev, next)) => action == (PickerAction::UndoThenApply {
                undo: prev,
                apply: next,
            }),
        },
{
    match transactions {
        None => PickerAction::Consumed,
        Some((prev, next)) => PickerAction::UndoThenApply { undo: prev, apply: next },
    }
}

} // verus!
