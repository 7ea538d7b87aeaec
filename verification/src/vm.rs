//! The stack machine: what each command does to the stack and the pointer,
//! and what it asks of the outside world.

use crate::bigint::{
    lemma_floor_positive, big_add, big_div_floor, big_eq, big_from_i64, big_lt, big_mod_floor, big_mul,
    big_sub, big_to_u8, big_to_usize, big_value,
};
use crate::color::Command;
use crate::pointer::{Coord, InstructionPointer};
use num_bigint::BigInt;
use vstd::prelude::*;

verus! {

/// Why a command could not run.
#[derive(Debug)]
pub enum ExecutionError {
    /// The stack holds fewer values than needed: needed, held.
    NotEnoughStack(usize, usize),
    /// The depth of a roll is not positive.
    NegativeRoll(BigInt),
    /// A value that has to index the stack does not fit a machine word.
    IntegerOverflow,
    DivisionByZero,
    /// Input or output failed, with the reason.
    IoError(String),
    /// The value cannot be written as one byte.
    EncodeError(BigInt),
}

/// What a command asks of the outside world once it has run.
#[derive(Debug)]
pub enum Action {
    Nothing,
    /// Write the number in decimal.
    WriteNumber(BigInt),
    /// Write the byte.
    WriteChar(u8),
    /// Read one byte and supply its value.
    ReadChar,
    /// Read a decimal integer and supply it.
    ReadNumber,
}

/// An `ExecutionError` over mathematical integers.
pub enum Fault {
    NotEnoughStack(usize, usize),
    NegativeRoll(int),
    IntegerOverflow,
    DivisionByZero,
    IoError(Seq<char>),
    EncodeError(int),
}

/// An `Action` over mathematical integers.
pub enum Request {
    Nothing,
    WriteNumber(int),
    WriteChar(u8),
    ReadChar,
    ReadNumber,
}

impl ExecutionError {
    pub open spec fn fault(self) -> Fault {
        match self {
            ExecutionError::NotEnoughStack(need, have) => Fault::NotEnoughStack(need, have),
            ExecutionError::NegativeRoll(n) => Fault::NegativeRoll(big_value(n)),
            ExecutionError::IntegerOverflow => Fault::IntegerOverflow,
            ExecutionError::DivisionByZero => Fault::DivisionByZero,
            ExecutionError::IoError(s) => Fault::IoError(s@),
            ExecutionError::EncodeError(n) => Fault::EncodeError(big_value(n)),
        }
    }
}

impl Action {
    pub open spec fn request(self) -> Request {
        match self {
            Action::Nothing => Request::Nothing,
            Action::WriteNumber(n) => Request::WriteNumber(big_value(n)),
            Action::WriteChar(b) => Request::WriteChar(b),
            Action::ReadChar => Request::ReadChar,
            Action::ReadNumber => Request::ReadNumber,
        }
    }
}

/// The integers that a stack of `BigInt` stands for, bottom first.
pub open spec fn values(s: Seq<BigInt>) -> Seq<int> {
    s.map_values(|b: BigInt| big_value(b))
}

/// `s` with its last `k` elements moved to the front.
pub open spec fn rotated_right(s: Seq<int>, k: int) -> Seq<int>
    recommends
        0 <= k <= s.len(),
{
    s.subrange(s.len() - k, s.len() as int) + s.subrange(0, s.len() - k)
}

/// How many values a command needs on the stack.
pub open spec fn operands(command: Command) -> nat {
    match command {
        Command::Noop | Command::Push | Command::InNum | Command::InChar => 0,
        Command::Pop
        | Command::Not
        | Command::Pointer
        | Command::Switch
        | Command::Duplicate
        | Command::OutNum
        | Command::OutChar => 1,
        _ => 2,
    }
}

/// Why `command` cannot run on the stack `st`, if it cannot. Too short a
/// stack is reported before anything else.
pub open spec fn fault_of(st: Seq<int>, command: Command) -> Option<Fault> {
    let len = st.len();
    if len < operands(command) {
        Some(Fault::NotEnoughStack(operands(command) as usize, len as usize))
    } else {
        match command {
            Command::Divide | Command::Mod => if st[len - 1] == 0 {
                Some(Fault::DivisionByZero)
            } else {
                None
            },
            Command::Roll => {
                let depth = st[len - 2];
                if depth <= 0 {
                    Some(Fault::NegativeRoll(depth))
                } else if depth > usize::MAX {
                    Some(Fault::IntegerOverflow)
                } else if len - 2 < depth {
                    Some(Fault::NotEnoughStack(depth as usize, (len - 2) as usize))
                } else {
                    None
                }
            },
            Command::OutChar => if 0 <= st[len - 1] <= u8::MAX {
                None
            } else {
                Some(Fault::EncodeError(st[len - 1]))
            },
            _ => None,
        }
    }
}

/// The stack after `command` has run on `st` without a fault. `value` is what
/// a `Push` pushes.
pub open spec fn stack_after(st: Seq<int>, command: Command, value: int) -> Seq<int> {
    let len = st.len() as int;
    let a = st[len - 2];
    let b = st[len - 1];
    let rest = st.take(len - 2);
    match command {
        Command::Noop | Command::InNum | Command::InChar => st,
        Command::Push => st.push(value),
        Command::Pop
        | Command::Pointer
        | Command::Switch
        | Command::OutNum
        | Command::OutChar => st.drop_last(),
        Command::Add => rest.push(a + b),
        Command::Subtract => rest.push(a - b),
        Command::Multiply => rest.push(a * b),
        Command::Divide => rest.push(crate::bigint::floor_div(a, b)),
        Command::Mod => rest.push(crate::bigint::floor_mod(a, b)),
        Command::Not => st.drop_last().push(
            if b == 0 {
                1
            } else {
                0
            },
        ),
        Command::Greater => rest.push(
            if a > b {
                1
            } else {
                0
            },
        ),
        Command::Duplicate => st.push(b),
        Command::Roll => rest.take(len - 2 - a) + rotated_right(rest.skip(len - 2 - a), b % a),
    }
}

/// The pointer after `command` has run on `st` without a fault.
pub open spec fn pointer_after(
    st: Seq<int>,
    ip: InstructionPointer,
    command: Command,
) -> InstructionPointer {
    match command {
        Command::Pointer => InstructionPointer(ip.0.turned_by((st.last() % 4) as nat), ip.1),
        Command::Switch => if st.last() % 2 != 0 {
            InstructionPointer(ip.0, ip.1.flipped())
        } else {
            ip
        },
        _ => ip,
    }
}

/// What `command` asks of the outside world when it runs on `st` without a
/// fault.
pub open spec fn request_of(st: Seq<int>, command: Command) -> Request {
    match command {
        Command::OutNum => Request::WriteNumber(st.last()),
        Command::OutChar => Request::WriteChar(st.last() as u8),
        Command::InChar => Request::ReadChar,
        Command::InNum => Request::ReadNumber,
        _ => Request::Nothing,
    }
}

/// The state of the machine: the pointer, the position, and the stack.
pub struct PietVM {
    pub instruction_pointer: InstructionPointer,
    pub pos: Coord,
    pub stack: Vec<BigInt>,
}

impl Default for PietVM {
    fn default() -> (r: PietVM)
        ensures
            r.instruction_pointer == InstructionPointer::initial(),
            r.pos == (0usize, 0usize),
            r.stack@.len() == 0,
    {
        PietVM { instruction_pointer: InstructionPointer::new(), pos: (0, 0), stack: Vec::new() }
    }
}

/// Whether running `command` took the machine from the stack `before` and the
/// pointer `ip` to the stack `after` and the pointer `ip_after`, with the
/// result `r`: on a fault nothing changes.
pub open spec fn ran(
    before: Seq<BigInt>,
    ip: InstructionPointer,
    command: Command,
    value: int,
    after: Seq<BigInt>,
    ip_after: InstructionPointer,
    r: Result<Action, ExecutionError>,
) -> bool {
    match r {
        Ok(a) => {
            &&& fault_of(values(before), command) is None
            &&& values(after) == stack_after(values(before), command, value)
            &&& ip_after == pointer_after(values(before), ip, command)
            &&& a.request() == request_of(values(before), command)
        },
        Err(e) => {
            &&& fault_of(values(before), command) == Some(e.fault())
            &&& after == before
            &&& ip_after == ip
        },
    }
}

/// Pushing onto a stack pushes the value onto what it stands for.
pub proof fn lemma_values_push(s: Seq<BigInt>, x: BigInt)
    ensures
        values(s.push(x)) == values(s).push(big_value(x)),
{
    assert(values(s.push(x)) =~= values(s).push(big_value(x)));
}

/// Taking a prefix of a stack takes the prefix of what it stands for.
pub proof fn lemma_values_take(s: Seq<BigInt>, n: int)
    requires
        0 <= n <= s.len(),
    ensures
        values(s.take(n)) == values(s).take(n),
{
    assert(values(s.take(n)) =~= values(s).take(n));
}

impl PietVM {
    pub fn new() -> (r: PietVM)
        ensures
            r.instruction_pointer == InstructionPointer::initial(),
            r.pos == (0usize, 0usize),
            r.stack@.len() == 0,
    {
        PietVM { instruction_pointer: InstructionPointer::new(), pos: (0, 0), stack: Vec::new() }
    }

    /// The integers on the stack, bottom first.
    pub open spec fn stack_values(self) -> Seq<int> {
        values(self.stack@)
    }

    /// Takes the top of the stack.
    pub fn pop1(&mut self) -> (r: Result<BigInt, ExecutionError>)
        ensures
            final(self).instruction_pointer == old(self).instruction_pointer,
            final(self).pos == old(self).pos,
            match r {
                Ok(v) => {
                    &&& old(self).stack@.len() >= 1
                    &&& v == old(self).stack@.last()
                    &&& final(self).stack@ == old(self).stack@.drop_last()
                },
                Err(e) => {
                    &&& old(self).stack@.len() == 0
                    &&& e.fault() == Fault::NotEnoughStack(1, 0)
                    &&& final(self).stack@ == old(self).stack@
                },
            },
    {
        match self.stack.pop() {
            Some(v) => Ok(v),
            None => Err(ExecutionError::NotEnoughStack(1, 0)),
        }
    }

    /// Takes the two values on top of the stack: the lower one first.
    pub fn pop2(&mut self) -> (r: Result<(BigInt, BigInt), ExecutionError>)
        ensures
            final(self).instruction_pointer == old(self).instruction_pointer,
            final(self).pos == old(self).pos,
            match r {
                Ok(v) => {
                    let len = old(self).stack@.len() as int;
                    &&& len >= 2
                    &&& v.0 == old(self).stack@[len - 2]
                    &&& v.1 == old(self).stack@[len - 1]
                    &&& final(self).stack@ == old(self).stack@.take(len - 2)
                },
                Err(e) => {
                    &&& old(self).stack@.len() < 2
                    &&& e.fault() == Fault::NotEnoughStack(2, old(self).stack@.len() as usize)
                    &&& final(self).stack@ == old(self).stack@
                },
            },
    {
        let len = self.stack.len();
        if len < 2 {
            return Err(ExecutionError::NotEnoughStack(2, len));
        }
        let b = self.stack.pop().unwrap();
        let a = self.stack.pop().unwrap();
        assert(self.stack@ =~= old(self).stack@.take(len - 2));
        Ok((a, b))
    }

    /// The top of the stack.
    pub fn last1(&self) -> (r: Result<&BigInt, ExecutionError>)
        ensures
            match r {
                Ok(v) => self.stack@.len() >= 1 && *v == self.stack@.last(),
                Err(e) => self.stack@.len() == 0 && e.fault() == Fault::NotEnoughStack(1, 0),
            },
    {
        let len = self.stack.len();
        if len < 1 {
            return Err(ExecutionError::NotEnoughStack(1, 0));
        }
        Ok(&self.stack[len - 1])
    }

    /// The two values on top of the stack: the lower one first.
    pub fn last2(&self) -> (r: Result<(&BigInt, &BigInt), ExecutionError>)
        ensures
            match r {
                Ok(v) => {
                    let len = self.stack@.len() as int;
                    &&& len >= 2
                    &&& *v.0 == self.stack@[len - 2]
                    &&& *v.1 == self.stack@[len - 1]
                },
                Err(e) => {
                    &&& self.stack@.len() < 2
                    &&& e.fault() == Fault::NotEnoughStack(2, self.stack@.len() as usize)
                },
            },
    {
        let len = self.stack.len();
        if len < 2 {
            return Err(ExecutionError::NotEnoughStack(2, len));
        }
        Ok((&self.stack[len - 2], &self.stack[len - 1]))
    }

    /// Puts a value that was read for `ReadChar` or `ReadNumber` on the stack.
    pub fn supply(&mut self, n: BigInt)
        ensures
            final(self).instruction_pointer == old(self).instruction_pointer,
            final(self).pos == old(self).pos,
            final(self).stack@ == old(self).stack@.push(n),
            final(self).stack_values() == old(self).stack_values().push(big_value(n)),
    {
        proof {
            lemma_values_push(self.stack@, n);
        }
        self.stack.push(n);
    }
}

/// Moves the top `k` values of `src` onto `dst`, the topmost first.
fn move_top(src: &mut Vec<BigInt>, dst: &mut Vec<BigInt>, k: usize)
    requires
        k <= old(src)@.len(),
    ensures
        final(src)@ == old(src)@.take(old(src)@.len() - k),
        final(dst)@ == old(dst)@ + Seq::new(
            k as nat,
            |i: int| old(src)@[old(src)@.len() - 1 - i],
        ),
{
    let mut i: usize = 0;
    while i < k
        invariant
            i <= k <= old(src)@.len(),
            src@ == old(src)@.take(old(src)@.len() - i),
            dst@ == old(dst)@ + Seq::new(i as nat, |j: int| old(src)@[old(src)@.len() - 1 - j]),
        decreases k - i,
    {
        let ghost before = dst@;
        let v = src.pop().unwrap();
        dst.push(v);
        i += 1;
        assert(src@ =~= old(src)@.take(old(src)@.len() - i));
        assert(dst@ =~= old(dst)@ + Seq::new(
            i as nat,
            |j: int| old(src)@[old(src)@.len() - 1 - j],
        ));
    }
}

/// `s` with its top `d` values moved right by `t` places.
pub open spec fn rolled<T>(s: Seq<T>, d: int, t: int) -> Seq<T>
    recommends
        0 <= t <= d <= s.len(),
{
    let n = s.len() as int;
    s.take(n - d) + s.subrange(n - t, n) + s.subrange(n - d, n - t)
}

/// Rolling a stack rolls what it stands for.
pub proof fn lemma_values_rolled(s: Seq<BigInt>, d: int, t: int)
    requires
        0 <= t <= d <= s.len(),
    ensures
        values(rolled(s, d, t)) == values(s).take(s.len() - d) + rotated_right(
            values(s).skip(s.len() - d),
            t,
        ),
{
    assert(values(rolled(s, d, t)) =~= values(s).take(s.len() - d) + rotated_right(
        values(s).skip(s.len() - d),
        t,
    ));
}

/// Moves the top `depth` values of `stack` right by `turn` places.
fn rotate_top(stack: &mut Vec<BigInt>, depth: usize, turn: usize)
    requires
        turn <= depth <= old(stack)@.len(),
    ensures
        final(stack)@ == rolled(old(stack)@, depth as int, turn as int),
{
    let mut hi: Vec<BigInt> = Vec::new();
    let mut lo: Vec<BigInt> = Vec::new();
    let ghost base = stack@;
    move_top(stack, &mut hi, turn);
    move_top(stack, &mut lo, depth - turn);
    let ghost low = stack@;
    move_top(&mut hi, stack, turn);
    assert(stack@ =~= low + base.subrange(base.len() - turn, base.len() as int));
    move_top(&mut lo, stack, depth - turn);
    assert(stack@ =~= rolled(base, depth as int, turn as int));
}

impl PietVM {
    /// Runs a command that takes two values and leaves one.
    fn run_binary(&mut self, command: Command) -> (r: Result<Action, ExecutionError>)
        requires
            command == Command::Add || command == Command::Subtract || command
                == Command::Multiply || command == Command::Divide || command == Command::Mod
                || command == Command::Greater,
        ensures
            final(self).pos == old(self).pos,
            ran(
                old(self).stack@,
                old(self).instruction_pointer,
                command,
                0,
                final(self).stack@,
                final(self).instruction_pointer,
                r,
            ),
    {
        let len = self.stack.len();
        if len < 2 {
            return Err(ExecutionError::NotEnoughStack(2, len));
        }
        let zero = big_from_i64(0);
        match command {
            Command::Divide | Command::Mod => {
                if big_eq(&self.stack[len - 1], &zero) {
                    return Err(ExecutionError::DivisionByZero);
                }
            },
            _ => {},
        }
        let b = self.stack.pop().unwrap();
        let a = self.stack.pop().unwrap();
        let v = match command {
            Command::Add => big_add(&a, &b),
            Command::Subtract => big_sub(&a, &b),
            Command::Multiply => big_mul(&a, &b),
            Command::Divide => big_div_floor(&a, &b),
            Command::Mod => big_mod_floor(&a, &b),
            _ => if big_lt(&b, &a) {
                big_from_i64(1)
            } else {
                zero
            },
        };
        proof {
            assert(self.stack@ =~= old(self).stack@.take(len - 2));
            lemma_values_take(old(self).stack@, len - 2);
            lemma_values_push(self.stack@, v);
        }
        self.stack.push(v);
        Ok(Action::Nothing)
    }

    /// Runs a command that takes the top of the stack.
    fn run_unary(&mut self, command: Command) -> (r: Result<Action, ExecutionError>)
        requires
            command == Command::Pop || command == Command::Not || command == Command::Pointer
                || command == Command::Switch || command == Command::Duplicate || command
                == Command::OutNum || command == Command::OutChar,
        ensures
            final(self).pos == old(self).pos,
            ran(
                old(self).stack@,
                old(self).instruction_pointer,
                command,
                0,
                final(self).stack@,
                final(self).instruction_pointer,
                r,
            ),
    {
        let len = self.stack.len();
        if len < 1 {
            return Err(ExecutionError::NotEnoughStack(1, 0));
        }
        let ghost before = self.stack@;
        proof {
            lemma_values_take(before, len - 1);
            assert(before.drop_last() =~= before.take(len - 1));
            assert(values(before).drop_last() =~= values(before).take(len - 1));
        }
        match command {
            Command::Duplicate => {
                let top = self.stack[len - 1].clone();
                proof {
                    lemma_values_push(before, top);
                }
                self.stack.push(top);
                Ok(Action::Nothing)
            },
            Command::OutChar => {
                match big_to_u8(&self.stack[len - 1]) {
                    Some(byte) => {
                        self.stack.pop();
                        Ok(Action::WriteChar(byte))
                    },
                    None => Err(ExecutionError::EncodeError(self.stack[len - 1].clone())),
                }
            },
            Command::OutNum => {
                let top = self.stack.pop().unwrap();
                Ok(Action::WriteNumber(top))
            },
            Command::Pop => {
                self.stack.pop();
                Ok(Action::Nothing)
            },
            Command::Not => {
                let top = self.stack.pop().unwrap();
                let zero = big_from_i64(0);
                let v = if big_eq(&top, &zero) {
                    big_from_i64(1)
                } else {
                    zero
                };
                proof {
                    lemma_values_push(self.stack@, v);
                }
                self.stack.push(v);
                Ok(Action::Nothing)
            },
            Command::Pointer => {
                let top = self.stack.pop().unwrap();
                let four = big_from_i64(4);
                let spin = big_mod_floor(&top, &four);
                proof {
                    lemma_floor_positive(big_value(top), 4);
                }
                let turns: u8 = match big_to_u8(&spin) {
                    Some(t) => t,
                    None => 0,
                };
                let mut i: u8 = 0;
                while i < turns
                    invariant
                        i <= turns,
                        self.pos == old(self).pos,
                        self.stack@ == before.drop_last(),
                        self.instruction_pointer.1 == old(self).instruction_pointer.1,
                        self.instruction_pointer.0 == old(self).instruction_pointer.0.turned_by(
                            i as nat,
                        ),
                    decreases turns - i,
                {
                    self.instruction_pointer.rotate();
                    i += 1;
                }
                Ok(Action::Nothing)
            },
            _ => {
                let top = self.stack.pop().unwrap();
                let two = big_from_i64(2);
                let odd = big_mod_floor(&top, &two);
                proof {
                    lemma_floor_positive(big_value(top), 2);
                }
                if !big_eq(&odd, &big_from_i64(0)) {
                    self.instruction_pointer.flip();
                }
                Ok(Action::Nothing)
            },
        }
    }

    /// Rolls the stack: takes the number of turns and the depth, and moves
    /// the top `depth` values right by that many turns.
    fn run_roll(&mut self) -> (r: Result<Action, ExecutionError>)
        ensures
            final(self).pos == old(self).pos,
            ran(
                old(self).stack@,
                old(self).instruction_pointer,
                Command::Roll,
                0,
                final(self).stack@,
                final(self).instruction_pointer,
                r,
            ),
    {
        let len = self.stack.len();
        if len < 2 {
            return Err(ExecutionError::NotEnoughStack(2, len));
        }
        let zero = big_from_i64(0);
        if !big_lt(&zero, &self.stack[len - 2]) {
            return Err(ExecutionError::NegativeRoll(self.stack[len - 2].clone()));
        }
        proof {
            lemma_floor_positive(big_value(self.stack@[len - 1]), big_value(self.stack@[len - 2]));
        }
        let turn_big = big_mod_floor(&self.stack[len - 1], &self.stack[len - 2]);
        let depth = match big_to_usize(&self.stack[len - 2]) {
            Some(d) => d,
            None => {
                return Err(ExecutionError::IntegerOverflow);
            },
        };
        let turn = match big_to_usize(&turn_big) {
            Some(t) => t,
            None => {
                return Err(ExecutionError::IntegerOverflow);
            },
        };
        let have = len - 2;
        if have < depth {
            return Err(ExecutionError::NotEnoughStack(depth, have));
        }
        let ghost before = self.stack@;
        self.stack.pop();
        self.stack.pop();
        assert(self.stack@ =~= before.take(have as int));
        rotate_top(&mut self.stack, depth, turn);
        proof {
            lemma_values_take(before, have as int);
            lemma_values_rolled(before.take(have as int), depth as int, turn as int);
        }
        Ok(Action::Nothing)
    }

    /// Runs `command` on the stack and the pointer; `value` is what a `Push`
    /// pushes. On a fault nothing changes. What is to be read or written is
    /// handed back, for the caller to do.
    pub fn run_command(&mut self, command: Command, value: BigInt) -> (r: Result<
        Action,
        ExecutionError,
    >)
        ensures
            final(self).pos == old(self).pos,
            ran(
                old(self).stack@,
                old(self).instruction_pointer,
                command,
                big_value(value),
                final(self).stack@,
                final(self).instruction_pointer,
                r,
            ),
    {
        match command {
            Command::Noop => Ok(Action::Nothing),
            Command::Push => {
                proof {
                    lemma_values_push(self.stack@, value);
                }
                self.stack.push(value);
                Ok(Action::Nothing)
            },
            Command::InNum => Ok(Action::ReadNumber),
            Command::InChar => Ok(Action::ReadChar),
            Command::Roll => self.run_roll(),
            Command::Add
            | Command::Subtract
            | Command::Multiply
            | Command::Divide
            | Command::Mod
            | Command::Greater => self.run_binary(command),
            _ => self.run_unary(command),
        }
    }
}

} // verus!
