//! The tape machine: a fixed number of 32-bit cells and a pointer that wraps.

use vstd::prelude::*;
use vstd::string::StringExecFns;
use vstd::arithmetic::div_mod::{lemma_add_mod_noop_right, lemma_small_mod, lemma_sub_mod_noop_right, lemma_mod_add_multiples_vanish};
use wrapnum::WrapNum;

verus! {

/// The state of a machine: where the pointer stands and what the cells hold.
pub ghost struct Tape {
    pub pointer: int,
    pub cells: Seq<u32>,
}

impl Tape {
    /// A tape of `size` zeroed cells with the pointer on the first.
    pub open spec fn fresh(size: int) -> Tape {
        Tape { pointer: 0, cells: Seq::new(size as nat, |i: int| 0u32) }
    }

    /// The pointer stands on a cell.
    pub open spec fn wf(self) -> bool {
        0 <= self.pointer < self.cells.len()
    }

    /// The cell under the pointer.
    pub open spec fn cell(self) -> u32 {
        self.cells[self.pointer]
    }

    /// The tape with `value` in the cell under the pointer.
    pub open spec fn with_cell(self, value: u32) -> Tape {
        Tape { cells: self.cells.update(self.pointer, value), ..self }
    }

    /// The tape with the pointer `n` cells further on, past the last cell
    /// back to the first.
    pub open spec fn forward(self, n: int) -> Tape {
        Tape { pointer: (self.pointer + n) % (self.cells.len() as int), ..self }
    }

    /// The tape with the pointer `n` cells further back, before the first
    /// cell on to the last.
    pub open spec fn backward(self, n: int) -> Tape {
        Tape { pointer: (self.pointer - n) % (self.cells.len() as int), ..self }
    }
}

/// The pointer wraps at both ends of the tape: one cell on from the last cell
/// is the first, and one cell back from the first is the last.
pub proof fn law_pointer_wraps(tape: Tape)
    requires
        tape.wf(),
    ensures
        tape.pointer == tape.cells.len() - 1 ==> tape.forward(1).pointer == 0,
        tape.pointer == 0 ==> tape.backward(1).pointer == tape.cells.len() - 1,
        tape.forward(1).wf(),
        tape.backward(1).wf(),
{
    let size = tape.cells.len() as int;
    lemma_mod_add_multiples_vanish(0, size);
    lemma_mod_add_multiples_vanish(-1, size);
    lemma_small_mod(0, size as nat);
    lemma_small_mod((size - 1) as nat, size as nat);
    vstd::arithmetic::div_mod::lemma_mod_bound(tape.pointer + 1, size);
    vstd::arithmetic::div_mod::lemma_mod_bound(tape.pointer - 1, size);
}

/// What stops a run.
#[derive(Clone, Copy, Debug, PartialEq, Eq, Structural)]
pub enum RuntimeError {
    /// The cell to be written out holds no Unicode scalar value.
    InvalidScalarValue,
    /// A byte was asked for and the input had none left.
    EndOfInput,
    /// Reading or writing failed. No run inside this library ends so: it is
    /// for the driver of a session to tell its user.
    IoError,
}

/// What a user is told about a fault.
pub open spec fn fault_text(fault: RuntimeError) -> Seq<char> {
    match fault {
        RuntimeError::InvalidScalarValue => "The cell holds no Unicode scalar value"@,
        RuntimeError::EndOfInput => "The input has come to its end"@,
        RuntimeError::IoError => "Reading or writing has failed"@,
    }
}

impl RuntimeError {
    /// The fault in words.
    pub fn to_string(&self) -> (text: String)
        ensures
            text@ == fault_text(*self),
    {
        match self {
            RuntimeError::InvalidScalarValue => "The cell holds no Unicode scalar value".to_owned(),
            RuntimeError::EndOfInput => "The input has come to its end".to_owned(),
            RuntimeError::IoError => "Reading or writing has failed".to_owned(),
        }
    }
}

/// What `char::from_u32` accepts: every number up to 0x10FFFF but the
/// surrogates.
pub open spec fn is_scalar_value(value: u32) -> bool {
    value <= 0xD7FF || 0xE000 <= value <= 0x10FFFF
}

/// `char::from_u32` gives the character with the given number, and `None`
/// exactly for the numbers that are no Unicode scalar value.
pub assume_specification[ char::from_u32 ](i: u32) -> (c: Option<char>)
    ensures
        c == if is_scalar_value(i) {
            Some(i as char)
        } else {
            None
        },
;

/// `WrapNum::new_max` followed by `+=`: with minimum 0 the sum is reduced
/// modulo `max`. Left out are the inputs on which the crate's own arithmetic
/// overflows, divides by zero or refuses the start value.
#[verifier::external_body]
fn wrapped_add(value: usize, rhs: usize, max: usize) -> (wrapped: usize)
    requires
        value <= max,
        0 < max,
        value + rhs <= usize::MAX,
    ensures
        wrapped == (value + rhs) % (max as int),
{
    let mut number = WrapNum::new_max(value, max);
    number += rhs;
    number.value
}

/// `WrapNum::new_max` followed by `-=`, for a `rhs` that is not above the
/// value: with minimum 0 the difference is reduced modulo `max`.
#[verifier::external_body]
fn wrapped_sub(value: usize, rhs: usize, max: usize) -> (wrapped: usize)
    requires
        rhs <= value <= max,
        0 < max,
    ensures
        wrapped == (value - rhs) % (max as int),
{
    let mut number = WrapNum::new_max(value, max);
    number -= rhs;
    number.value
}

/// A tape machine. The pointer always stands on a cell.
pub struct Machine {
    ptr: usize,
    tape: Vec<u32>,
}

impl View for Machine {
    type V = Tape;

    closed spec fn view(&self) -> Tape {
        Tape { pointer: self.ptr as int, cells: self.tape@ }
    }
}

impl Machine {
    #[verifier::type_invariant]
    spec fn pointer_on_tape(self) -> bool {
        self.ptr < self.tape@.len()
    }

    /// A machine of `size` zeroed cells with the pointer on the first.
    pub fn new(size: usize) -> (machine: Self)
        requires
            size > 0,
        ensures
            machine@ == Tape::fresh(size as int),
            machine@.wf(),
    {
        let machine = Machine { ptr: 0, tape: vec![0u32; size] };
        assert(machine.tape@ =~= Tape::fresh(size as int).cells);
        machine
    }

    /// The number of cells.
    pub fn get_size(&self) -> (size: usize)
        ensures
            size == self@.cells.len(),
            self@.wf(),
    {
        proof {
            use_type_invariant(self);
        }
        self.tape.len()
    }

    /// Puts `num` into the cell under the pointer.
    pub fn set_byte(&mut self, num: u32)
        ensures
            final(self)@ == old(self)@.with_cell(num),
            final(self)@.wf(),
    {
        proof {
            use_type_invariant(&*self);
        }
        self.tape[self.ptr] = num;
    }

    /// Adds `num` to the cell under the pointer, modulo 2^32.
    pub fn add(&mut self, num: u32)
        ensures
            final(self)@ == old(self)@.with_cell(old(self)@.cell().wrapping_add(num)),
            final(self)@.wf(),
    {
        proof {
            use_type_invariant(&*self);
        }
        self.tape[self.ptr] = self.tape[self.ptr].wrapping_add(num);
    }

    /// Subtracts `num` from the cell under the pointer, modulo 2^32.
    pub fn sub(&mut self, num: u32)
        ensures
            final(self)@ == old(self)@.with_cell(old(self)@.cell().wrapping_sub(num)),
            final(self)@.wf(),
    {
        proof {
            use_type_invariant(&*self);
        }
        self.tape[self.ptr] = self.tape[self.ptr].wrapping_sub(num);
    }

    /// Moves the pointer `num` cells on, modulo the number of cells.
    pub fn increment(&mut self, num: usize)
        ensures
            final(self)@ == old(self)@.forward(num as int),
            final(self)@.wf(),
    {
        proof {
            use_type_invariant(&*self);
        }
        let size = self.tape.len();
        let step = num % size;
        proof {
            lemma_add_mod_noop_right(self.ptr as int, num as int, size as int);
        }
        if step <= usize::MAX - self.ptr {
            self.ptr = wrapped_add(self.ptr, step, size);
        } else {
            // the sum does not fit the machine word: it lies between one and
            // two times the size
            proof {
                lemma_mod_add_multiples_vanish(self.ptr + step - size, size as int);
                lemma_small_mod((self.ptr + step - size) as nat, size as nat);
            }
            self.ptr = self.ptr - (size - step);
        }
    }

    /// Moves the pointer `num` cells back, modulo the number of cells.
    pub fn decrement(&mut self, num: usize)
        ensures
            final(self)@ == old(self)@.backward(num as int),
            final(self)@.wf(),
    {
        proof {
            use_type_invariant(&*self);
        }
        let size = self.tape.len();
        let step = num % size;
        proof {
            lemma_sub_mod_noop_right(self.ptr as int, num as int, size as int);
        }
        if step <= self.ptr {
            self.ptr = wrapped_sub(self.ptr, step, size);
        } else {
            proof {
                lemma_mod_add_multiples_vanish(self.ptr - step, size as int);
            }
            self.ptr = wrapped_add(self.ptr, size - step, size);
        }
    }

    /// Stores a byte that was read, zero-extended, in the cell under the
    /// pointer.
    pub fn input(&mut self, byte: u8)
        ensures
            final(self)@ == old(self)@.with_cell(byte as u32),
            final(self)@.wf(),
    {
        self.set_byte(byte as u32);
    }

    /// The character to write for the cell under the pointer.
    pub fn output(&self) -> (outcome: Result<char, RuntimeError>)
        ensures
            outcome == written(self@.cell()),
    {
        match char::from_u32(self.get_byte()) {
            Some(c) => Ok(c),
            None => Err(RuntimeError::InvalidScalarValue),
        }
    }

    /// The cell under the pointer.
    pub fn get_byte(&self) -> (value: u32)
        ensures
            value == self@.cell(),
    {
        proof {
            use_type_invariant(self);
        }
        self.tape[self.ptr]
    }
}

/// What writing out a cell that holds `value` gives: the character with that
/// number, or a fault where there is none.
pub open spec fn written(value: u32) -> Result<char, RuntimeError> {
    if is_scalar_value(value) {
        Ok(value as char)
    } else {
        Err(RuntimeError::InvalidScalarValue)
    }
}

} // verus!
