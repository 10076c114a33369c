//! # Input components
//!
//! A node takes its inputs in one of two ways. A slotted input has a fixed
//! number of positions, each fed by at most one upstream node. A multiple
//! input takes any number of upstream nodes, each at most once, and keeps
//! them in the order in which they were connected.

use crate::handled_vec::handles::Handle;
use crate::handled_vec::parts;
use crate::hardeen_error::HardeenError;
use itertools::Itertools;
use vstd::prelude::*;

verus! {

/// The handles that fill the slots, in slot order.
pub open spec fn filled<H>(slots: Seq<Option<H>>) -> Seq<H>
    decreases slots.len(),
{
    if slots.len() == 0 {
        Seq::empty()
    } else if slots.last() is Some {
        filled(slots.drop_last()).push(slots.last()->0)
    } else {
        filled(slots.drop_last())
    }
}

/// The slots with every slot emptied that holds a handle of the given parts.
pub open spec fn without<H: Handle>(slots: Seq<Option<H>>, handle: (usize, usize)) -> Seq<
    Option<H>,
> {
    Seq::new(
        slots.len(),
        |i: int|
            if slots[i] is Some && parts(slots[i]->0) == handle {
                None
            } else {
                slots[i]
            },
    )
}

/// A handle fills a slot exactly when it is among the handles that fill
/// the slots.
pub proof fn lemma_filled_contains<H>(slots: Seq<Option<H>>, handle: H)
    ensures
        filled(slots).contains(handle) <==> exists|j: int|
            0 <= j < slots.len() && #[trigger] slots[j] == Some(handle),
    decreases slots.len(),
{
    if slots.len() > 0 {
        let rest = slots.drop_last();
        lemma_filled_contains(rest, handle);
        if filled(slots).contains(handle) {
            let k = choose|k: int| 0 <= k < filled(slots).len() && filled(slots)[k] == handle;
            if k < filled(rest).len() {
                assert(filled(rest)[k] == handle);
                assert(filled(rest).contains(handle));
                let j = choose|j: int| 0 <= j < rest.len() && #[trigger] rest[j] == Some(handle);
                assert(slots[j] == Some(handle));
            } else {
                assert(slots[slots.len() - 1] == Some(handle));
            }
        }
        if exists|j: int| 0 <= j < slots.len() && #[trigger] slots[j] == Some(handle) {
            let j = choose|j: int| 0 <= j < slots.len() && #[trigger] slots[j] == Some(handle);
            if j < rest.len() {
                assert(rest[j] == Some(handle));
                assert(filled(rest).contains(handle));
                let k = choose|k: int| 0 <= k < filled(rest).len() && filled(rest)[k] == handle;
                assert(filled(slots)[k] == handle);
            } else {
                assert(filled(slots)[filled(slots).len() - 1] == handle);
            }
        }
    }
}

/// Filling an empty slot adds the handle to those that fill the slots.
pub proof fn lemma_filled_after_fill<H>(slots: Seq<Option<H>>, slot: int, handle: H)
    requires
        0 <= slot < slots.len(),
        slots[slot] is None,
    ensures
        forall|other: H|
            filled(slots.update(slot, Some(handle))).contains(other) <==> filled(slots).contains(
                other,
            ) || other == handle,
{
    let after = slots.update(slot, Some(handle));
    assert forall|other: H|
        filled(after).contains(other) <==> filled(slots).contains(other) || other == handle by {
        lemma_filled_contains(after, other);
        lemma_filled_contains(slots, other);
        if filled(after).contains(other) && other != handle {
            let j = choose|j: int| 0 <= j < after.len() && #[trigger] after[j] == Some(other);
            assert(slots[j] == Some(other));
        }
        if filled(slots).contains(other) {
            let j = choose|j: int| 0 <= j < slots.len() && #[trigger] slots[j] == Some(other);
            assert(after[j] == Some(other));
        }
        if other == handle {
            assert(after[slot] == Some(other));
        }
    }
}

/// Emptying a slot takes its handle from those that fill the slots, unless
/// the handle fills another slot too; no other handle comes or goes.
pub proof fn lemma_filled_after_clear<H>(slots: Seq<Option<H>>, slot: int)
    requires
        0 <= slot < slots.len(),
    ensures
        forall|other: H|
            filled(slots.update(slot, None)).contains(other) ==> filled(slots).contains(other),
        forall|other: H|
            filled(slots).contains(other) && slots[slot] != Some(other) ==> filled(
                slots.update(slot, None),
            ).contains(other),
{
    let after = slots.update(slot, None);
    assert forall|other: H| filled(after).contains(other) implies filled(slots).contains(other) by {
        lemma_filled_contains(after, other);
        lemma_filled_contains(slots, other);
        let j = choose|j: int| 0 <= j < after.len() && #[trigger] after[j] == Some(other);
        assert(slots[j] == Some(other));
    }
    assert forall|other: H|
        filled(slots).contains(other) && slots[slot] != Some(other) implies filled(after).contains(
        other,
    ) by {
        lemma_filled_contains(after, other);
        lemma_filled_contains(slots, other);
        let j = choose|j: int| 0 <= j < slots.len() && #[trigger] slots[j] == Some(other);
        assert(after[j] == Some(other));
    }
}

#[derive(Debug)]
pub struct SlottedInput<H: Handle + Copy> {
    input_handles: Vec<Option<H>>,
}

impl<H: Handle + Copy> SlottedInput<H> {
    /// The slots, first to last.
    pub closed spec fn view(&self) -> Seq<Option<H>> {
        self.input_handles@
    }

    pub fn new(number_of_slots: u8) -> (input: Self)
        ensures
            input@ == Seq::new(number_of_slots as nat, |i: int| None::<H>),
    {
        let mut input_handles: Vec<Option<H>> = Vec::new();
        let mut made: u8 = 0;
        while made < number_of_slots
            invariant
                made <= number_of_slots,
                input_handles@ =~= Seq::new(made as nat, |i: int| None::<H>),
            decreases number_of_slots - made,
        {
            input_handles.push(None);
            made += 1;
        }
        SlottedInput { input_handles }
    }

    pub fn connect_input(&mut self, handle: &H, slot_number: usize) -> (result: Result<
        (),
        HardeenError,
    >)
        ensures
            slot_number < old(self)@.len() ==> result is Ok && final(self)@ == old(self)@.update(
                slot_number as int,
                Some(*handle),
            ),
            slot_number >= old(self)@.len() ==> result == Err::<(), _>(
                HardeenError::InvalidInputSlotNumber,
            ) && final(self)@ == old(self)@,
    {
        if slot_number >= self.input_handles.len() {
            return Err(HardeenError::InvalidInputSlotNumber);
        }
        self.input_handles[slot_number] = Some(*handle);
        Ok(())
    }

    pub fn disconnect_input(&mut self, slot_number: usize) -> (result: Result<(), HardeenError>)
        ensures
            slot_number < old(self)@.len() ==> result is Ok && final(self)@ == old(self)@.update(
                slot_number as int,
                None,
            ),
            slot_number >= old(self)@.len() ==> result == Err::<(), _>(
                HardeenError::InvalidInputSlotNumber,
            ) && final(self)@ == old(self)@,
    {
        if slot_number >= self.input_handles.len() {
            return Err(HardeenError::InvalidInputSlotNumber);
        }
        self.input_handles[slot_number] = None;
        Ok(())
    }

    /// Empties every slot that the handle fills.
    pub fn disconnect_handle(&mut self, handle: &H) -> (result: Result<(), HardeenError>)
        ensures
            result is Ok,
            final(self)@ == without(old(self)@, parts(*handle)),
    {
        let mut slot: usize = 0;
        let length = self.input_handles.len();
        while slot < length
            invariant
                slot <= length,
                length == old(self)@.len(),
                self@.len() == length,
                forall|i: int| 0 <= i < slot ==> self@[i] == without(old(self)@, parts(*handle))[i],
                forall|i: int| slot <= i < length ==> self@[i] == old(self)@[i],
            decreases length - slot,
        {
            let matches = match &self.input_handles[slot] {
                Some(input_handle) => input_handle.get_index() == handle.get_index()
                    && input_handle.get_generation() == handle.get_generation(),
                None => false,
            };
            if matches {
                self.input_handles[slot] = None;
            }
            slot += 1;
        }
        assert(self@ =~= without(old(self)@, parts(*handle)));
        Ok(())
    }

    pub fn is_slot_occupied(&self, slot_number: usize) -> (result: Result<bool, HardeenError>)
        ensures
            slot_number < self@.len() ==> result == Ok::<_, HardeenError>(
                self@[slot_number as int] is Some,
            ),
            slot_number >= self@.len() ==> result == Err::<bool, _>(
                HardeenError::InvalidInputSlotNumber,
            ),
    {
        if slot_number >= self.input_handles.len() {
            return Err(HardeenError::InvalidInputSlotNumber);
        }
        Ok(self.input_handles[slot_number].is_some())
    }

    /// Whether every slot is filled.
    pub fn is_input_satisfied(&self) -> (satisfied: bool)
        ensures
            satisfied == (forall|i: int| 0 <= i < self@.len() ==> self@[i] is Some),
    {
        let mut slot: usize = 0;
        let length = self.input_handles.len();
        while slot < length
            invariant
                slot <= length,
                length == self@.len(),
                forall|i: int| 0 <= i < slot ==> self@[i] is Some,
            decreases length - slot,
        {
            if self.input_handles[slot].is_none() {
                return false;
            }
            slot += 1;
        }
        true
    }

    pub fn get_input(&self, slot_number: usize) -> (result: Result<Option<H>, HardeenError>)
        ensures
            slot_number < self@.len() ==> result == Ok::<_, HardeenError>(
                self@[slot_number as int],
            ),
            slot_number >= self@.len() ==> result == Err::<Option<H>, _>(
                HardeenError::InvalidInputSlotNumber,
            ),
    {
        if slot_number >= self.input_handles.len() {
            return Err(HardeenError::InvalidInputSlotNumber);
        }
        Ok(self.input_handles[slot_number])
    }

    pub fn get_number_of_slots(&self) -> (number: usize)
        ensures
            number == self@.len(),
    {
        self.input_handles.len()
    }

    /// The handles in the filled slots, in slot order.
    pub fn get_all_input_handles(&self) -> (handles: Vec<H>)
        ensures
            handles@ == filled(self@),
    {
        let mut handles: Vec<H> = Vec::new();
        let mut slot: usize = 0;
        let length = self.input_handles.len();
        while slot < length
            invariant
                slot <= length,
                length == self@.len(),
                handles@ == filled(self@.take(slot as int)),
            decreases length - slot,
        {
            proof {
                assert(self@.take(slot + 1).drop_last() =~= self@.take(slot as int));
            }
            if let Some(handle) = self.input_handles[slot] {
                handles.push(handle);
            }
            slot += 1;
        }
        assert(self@.take(length as int) =~= self@);
        handles
    }
}

/// The position of the first handle with the given parts, if there is one.
pub open spec fn position_of<H: Handle>(handles: Seq<H>, handle: (usize, usize)) -> Option<int>
    decreases handles.len(),
{
    if handles.len() == 0 {
        None
    } else if position_of(handles.drop_last(), handle) is Some {
        position_of(handles.drop_last(), handle)
    } else if parts(handles.last()) == handle {
        Some(handles.len() - 1)
    } else {
        None
    }
}

pub proof fn lemma_position_of<H: Handle>(handles: Seq<H>, handle: (usize, usize))
    ensures
        match position_of(handles, handle) {
            Some(at) => 0 <= at < handles.len() && parts(handles[at]) == handle && forall|i: int|
                0 <= i < at ==> parts(#[trigger] handles[i]) != handle,
            None => forall|i: int| 0 <= i < handles.len() ==> parts(#[trigger] handles[i]) != handle,
        },
    decreases handles.len(),
{
    if handles.len() > 0 {
        lemma_position_of(handles.drop_last(), handle);
        assert forall|i: int| 0 <= i < handles.len() - 1 implies handles[i]
            == handles.drop_last()[i] by {}
    }
}

/// `Itertools::collect_vec` gathers what an iterator yields into a vector,
/// in the order in which it yields it; here, copies of the handles.
#[verifier::external_body]
fn collect_handles<H: Handle + Copy>(handles: &Vec<H>) -> (collected: Vec<H>)
    ensures
        collected@ == handles@,
{
    handles.iter().copied().collect_vec()
}

#[derive(Debug)]
pub struct MultipleInput<H: Handle + Copy> {
    input_handles: Vec<H>,
    zero_inputs_allowed: bool,
}

impl<H: Handle + Copy> MultipleInput<H> {
    /// The connected handles, in the order in which they were connected.
    pub closed spec fn view(&self) -> Seq<H> {
        self.input_handles@
    }

    pub closed spec fn zero_allowed(&self) -> bool {
        self.zero_inputs_allowed
    }

    /// No handle is connected twice.
    pub open spec fn wf(&self) -> bool {
        forall|i: int, j: int|
            0 <= i < j < self@.len() ==> parts(#[trigger] self@[i]) != parts(#[trigger] self@[j])
    }

    pub fn new(zero_inputs_allowed: bool) -> (input: Self)
        ensures
            input@ == Seq::<H>::empty(),
            input.zero_allowed() == zero_inputs_allowed,
            input.wf(),
    {
        MultipleInput { input_handles: Vec::new(), zero_inputs_allowed }
    }

    fn find(&self, handle: &H) -> (found: Option<usize>)
        ensures
            match found {
                Some(at) => position_of(self@, parts(*handle)) == Some(at as int),
                None => position_of(self@, parts(*handle)) is None,
            },
    {
        let mut at: usize = 0;
        let length = self.input_handles.len();
        while at < length
            invariant
                at <= length,
                length == self@.len(),
                forall|i: int| 0 <= i < at ==> parts(#[trigger] self@[i]) != parts(*handle),
            decreases length - at,
        {
            let candidate = &self.input_handles[at];
            if candidate.get_index() == handle.get_index() && candidate.get_generation()
                == handle.get_generation() {
                proof {
                    lemma_position_of(self@, parts(*handle));
                }
                return Some(at);
            }
            at += 1;
        }
        proof {
            lemma_position_of(self@, parts(*handle));
        }
        None
    }

    /// Connects the handle, unless it is connected already.
    pub fn connect_input(&mut self, handle: &H) -> (result: Result<(), HardeenError>)
        requires
            old(self).wf(),
        ensures
            result is Ok,
            final(self).wf(),
            final(self).zero_allowed() == old(self).zero_allowed(),
            final(self)@ == if position_of(old(self)@, parts(*handle)) is Some {
                old(self)@
            } else {
                old(self)@.push(*handle)
            },
    {
        proof {
            lemma_position_of(self@, parts(*handle));
        }
        if self.find(handle).is_none() {
            self.input_handles.push(*handle);
        }
        Ok(())
    }

    /// Whether a handle is connected, or none is needed.
    pub fn is_input_satisfied(&self) -> (satisfied: bool)
        ensures
            satisfied == (self@.len() > 0 || self.zero_allowed()),
    {
        self.input_handles.len() > 0 || self.zero_inputs_allowed
    }

    /// Takes the handle out, if it is connected; the others keep their order.
    pub fn disconnect_input(&mut self, handle: &H) -> (result: Result<(), HardeenError>)
        requires
            old(self).wf(),
        ensures
            result is Ok,
            final(self).wf(),
            final(self).zero_allowed() == old(self).zero_allowed(),
            final(self)@ == match position_of(old(self)@, parts(*handle)) {
                Some(at) => old(self)@.remove(at),
                None => old(self)@,
            },
    {
        proof {
            lemma_position_of(self@, parts(*handle));
        }
        if let Some(at) = self.find(handle) {
            self.input_handles.remove(at);
        }
        Ok(())
    }

    /// The connected handles, in the order in which they were connected.
    pub fn get_all_input_handles(&self) -> (handles: Vec<H>)
        ensures
            handles@ == self@,
    {
        collect_handles(&self.input_handles)
    }
}

#[derive(Debug)]
pub enum InputComponent<H: Handle + Copy> {
    Slotted(SlottedInput<H>),
    Multiple(MultipleInput<H>),
}

} // verus!
