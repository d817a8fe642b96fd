//! Stack-machine code: instructions, addresses with relative jumps, and a
//! program that is built by appending instructions and patching jumps, and
//! that can be listed as text.
use vstd::prelude::*;
use vstd::string::*;
use crate::text::{dec_digits, hex3_text, int_text, pad_left, push_char, push_dec, push_hex3, push_int, push_signed, push_signed_right3, push_str, signed_text};

verus! {

/// An immediate value that an instruction pushes onto the stack.
#[derive(Clone, Copy, Debug)]
pub enum Value {
    Bool(bool),
    Int(i64),
    Char(char),
}

/// A value as `{}` shows it.
pub open spec fn value_text(v: Value) -> Seq<char> {
    match v {
        Value::Bool(b) => if b { "true"@ } else { "false"@ },
        Value::Int(i) => int_text(i as int),
        Value::Char(c) => seq![c],
    }
}

/// Appends a value as `{}` writes it.
pub fn push_value(out: &mut String, v: Value)
    ensures
        final(out)@ == old(out)@ + value_text(v),
{
    match v {
        Value::Bool(b) => {
            if b {
                push_str(out, "true");
            } else {
                push_str(out, "false");
            }
        },
        Value::Int(i) => push_int(out, i),
        Value::Char(c) => {
            push_char(out, c);
            assert(final(out)@ =~= old(out)@ + seq![c]);
        },
    }
}

/// One instruction of the stack machine.
#[derive(Clone, Copy, Debug)]
pub enum Instr {
    Error(&'static str),
    Nop,
    Break,

    Call(isize),
    Ret,
    /// Make a function using the relative offset and by capturing the last N items on the stack
    MakeFunc(isize, usize),
    ApplyFunc,

    /// T * N => [T]
    MakeList(usize),
    /// Nth field of list/tuple
    IndexList(usize),
    /// (N..) fields of list/tuple
    SkipList(usize),
    LenList,
    JoinList,

    MakeSum(usize),
    IndexSum(usize),
    VariantSum,

    Jump(isize),
    IfNot,

    Imm(Value),
    Pop(usize),
    Replace,
    /// Duplicate value on top of stack
    Dup,
    PushLocal,
    /// Don't push to stack
    PopLocal(usize),
    /// Duplicate value in locals position (len - 1 - N) and put on stack
    GetLocal(usize),

    /// Bool -> Bool
    NotBool,
    /// Bool -> Bool -> Bool
    AndBool,
    /// Bool -> Bool -> Bool
    EqBool,

    /// Int -> Int
    NegInt,
    /// Int -> Int -> Int
    AddInt,
    /// Int -> Int -> Int
    SubInt,
    /// Int -> Int -> Int
    MulInt,
    /// Int -> Int -> Num
    DivInt,
    /// Int -> Int -> Int
    RemInt,
    /// Int -> Int -> Bool
    EqInt,
    /// Int -> Int -> Bool
    LessInt,
    /// Int -> Int -> Bool
    MoreInt,
    /// Int -> Int -> Bool
    LessEqInt,
    /// Int -> Int -> Bool
    MoreEqInt,

    /// Num -> Num
    NegNum,
    /// Num -> Num -> Num
    AddNum,
    /// Num -> Num -> Num
    SubNum,
    /// Num -> Num -> Num
    MulNum,
    /// Num -> Num -> Num
    DivNum,
    /// Num -> Num -> Bool
    EqNum,
    /// Num -> Num -> Bool
    LessNum,
    /// Num -> Num -> Bool
    MoreNum,
    /// Num -> Num -> Bool
    LessEqNum,
    /// Num -> Num -> Bool
    MoreEqNum,

    /// Char -> Char -> Bool
    EqChar,
}

impl Instr {
    /// The instruction that pushes the boolean `x`.
    pub fn bool(x: bool) -> (r: Self)
        ensures
            r == Instr::Imm(Value::Bool(x)),
    {
        Self::Imm(Value::Bool(x))
    }
}

/// An address read as a signed machine word, as `as isize` reads it.
pub open spec fn signed(n: usize) -> int {
    if n <= isize::MAX {
        n as int
    } else {
        n - usize::MAX - 1
    }
}

/// A signed machine word read as an address, as `as usize` reads it.
pub open spec fn unsigned(i: int) -> int {
    if i < 0 {
        i + usize::MAX + 1
    } else {
        i
    }
}

/// Whether a jump by `rel` from `a` stays within the signed machine word.
pub open spec fn jump_defined(a: usize, rel: int) -> bool {
    isize::MIN <= signed(a) + rel <= isize::MAX
}

/// The address reached by a jump of `rel` from `a`.
pub open spec fn jump_target(a: usize, rel: int) -> int {
    unsigned(signed(a) + rel)
}

/// Whether the distance from `a` to `b` fits in a signed machine word.
pub open spec fn offset_defined(a: usize, b: usize) -> bool {
    isize::MIN <= signed(b) - signed(a) <= isize::MAX
}

/// The relative jump that leads from `a` to `b`.
pub open spec fn offset(a: usize, b: usize) -> int {
    signed(b) - signed(a)
}

fn to_signed(n: usize) -> (r: isize)
    ensures
        r == signed(n),
{
    if n <= isize::MAX as usize {
        n as isize
    } else {
        -((usize::MAX - n) as isize) - 1
    }
}

/// The address of an instruction in a program.
#[derive(Copy, Clone, Debug, PartialEq, Eq, Structural)]
pub struct Addr(pub usize);

impl Default for Addr {
    fn default() -> (r: Self)
        ensures
            r.0 == 0,
    {
        Addr(0)
    }
}

impl Addr {
    /// The next address.
    pub fn incr(self) -> (r: Self)
        requires
            self.0 < usize::MAX,
        ensures
            r.0 == self.0 + 1,
    {
        Self(self.0 + 1)
    }

    /// The address `rel` instructions away (backwards when `rel` is negative).
    pub fn jump(self, rel: isize) -> (r: Self)
        requires
            jump_defined(self.0, rel as int),
        ensures
            r.0 == jump_target(self.0, rel as int),
    {
        Self(self.0.wrapping_add_signed(rel))
    }

    /// The relative jump from this address to `other`.
    pub fn jump_to(self, other: Self) -> (r: isize)
        requires
            offset_defined(self.0, other.0),
        ensures
            r == offset(self.0, other.0),
    {
        to_signed(other.0) - to_signed(self.0)
    }
}

/// How many stack slots an instruction adds (negative: removes), as a listing shows it.
pub open spec fn stack_diff(ins: Instr) -> int {
    match ins {
        Instr::Error(_) | Instr::Nop | Instr::Break => 0,
        Instr::Imm(_) => 1,
        Instr::Pop(n) => -signed(n),
        Instr::Replace => -1,
        Instr::Call(_) => 0,
        Instr::Ret => 0,
        Instr::MakeFunc(_, n) => -signed(n),
        Instr::ApplyFunc => 0,
        Instr::MakeList(n) => -signed(n) + 1,
        Instr::IndexList(_) => 0,
        Instr::SkipList(_) => 0,
        Instr::LenList => 0,
        Instr::JoinList => -1,
        Instr::MakeSum(_) => 0,
        Instr::IndexSum(_) => 0,
        Instr::VariantSum => 0,
        Instr::Dup => 1,
        Instr::Jump(_) => 0,
        Instr::IfNot => -1,
        Instr::PushLocal => -1,
        Instr::PopLocal(_) => 0,
        Instr::GetLocal(_) => 1,
        Instr::NotBool | Instr::NegInt | Instr::NegNum => 0,
        Instr::EqBool | Instr::AndBool | Instr::AddInt | Instr::SubInt | Instr::MulInt
        | Instr::DivInt | Instr::RemInt | Instr::EqInt | Instr::LessInt | Instr::MoreInt
        | Instr::LessEqInt | Instr::MoreEqInt | Instr::AddNum | Instr::SubNum | Instr::MulNum
        | Instr::DivNum | Instr::EqNum | Instr::LessNum | Instr::MoreNum | Instr::LessEqNum
        | Instr::MoreEqNum | Instr::EqChar => -1,
    }
}

/// Whether the stack change of an instruction fits in a signed machine word
/// (a count whose negation overflows does not).
pub open spec fn diff_defined(ins: Instr) -> bool {
    match ins {
        Instr::Pop(n) => signed(n) != isize::MIN,
        Instr::MakeList(n) => -signed(n) + 1 <= isize::MAX,
        Instr::MakeFunc(_, n) => signed(n) != isize::MIN,
        _ => true,
    }
}

/// Whether the instruction at address `a` can be listed: its stack change and
/// the jump target that the listing shows fit in a signed machine word.
pub open spec fn listable(ins: Instr, a: usize) -> bool {
    &&& diff_defined(ins)
    &&& match ins {
        Instr::MakeFunc(i, _) => jump_defined(a, i as int),
        Instr::Call(x) => jump_defined(a, x as int),
        Instr::Jump(x) => jump_defined(a, x as int),
        _ => true,
    }
}

/// The text of an instruction at address `a` in a listing.
pub open spec fn instr_text(ins: Instr, a: usize) -> Seq<char> {
    match ins {
        Instr::Error(msg) => "error \""@ + msg@ + "\""@,
        Instr::Nop => "nop"@,
        Instr::Break => "break"@,
        Instr::Imm(x) => "imm `"@ + value_text(x) + "`"@,
        Instr::Pop(n) => "pop "@ + dec_digits(n as nat),
        Instr::Replace => "replace"@,
        Instr::Call(x) => "call "@ + signed_text(x as int) + " ("@ + hex3_text(
            jump_target(a, x as int) as nat,
        ) + ")"@,
        Instr::Ret => "ret"@,
        Instr::MakeFunc(i, n) => "func.make "@ + signed_text(i as int) + " ("@ + hex3_text(
            jump_target(a, i as int) as nat,
        ) + ") "@ + dec_digits(n as nat),
        Instr::ApplyFunc => "func.apply"@,
        Instr::MakeList(n) => "list.make "@ + dec_digits(n as nat),
        Instr::IndexList(i) => "list.index #"@ + dec_digits(i as nat),
        Instr::SkipList(i) => "list.skip #"@ + dec_digits(i as nat),
        Instr::LenList => "list.len"@,
        Instr::JoinList => "list.join"@,
        Instr::MakeSum(i) => "sum.make #"@ + dec_digits(i as nat),
        Instr::IndexSum(i) => "sum.index #"@ + dec_digits(i as nat),
        Instr::VariantSum => "sum.variant"@,
        Instr::Dup => "dup"@,
        Instr::Jump(x) => "jump "@ + signed_text(x as int) + " ("@ + hex3_text(
            jump_target(a, x as int) as nat,
        ) + ")"@,
        Instr::IfNot => "if_not"@,
        Instr::PushLocal => "local.push"@,
        Instr::PopLocal(n) => "local.pop "@ + dec_digits(n as nat),
        Instr::GetLocal(x) => "local.get +"@ + dec_digits(x as nat),
        Instr::NotBool => "bool.not"@,
        Instr::AndBool => "bool.and"@,
        Instr::EqBool => "bool.eq"@,
        Instr::NegInt => "int.neg"@,
        Instr::AddInt => "int.add"@,
        Instr::SubInt => "int.sub"@,
        Instr::MulInt => "int.mul"@,
        Instr::DivInt => "int.div"@,
        Instr::RemInt => "int.rem"@,
        Instr::EqInt => "int.eq"@,
        Instr::LessInt => "int.less"@,
        Instr::MoreInt => "int.more"@,
        Instr::LessEqInt => "int.less_eq"@,
        Instr::MoreEqInt => "int.more_eq"@,
        Instr::NegNum => "num.neg"@,
        Instr::AddNum => "num.add"@,
        Instr::SubNum => "num.sub"@,
        Instr::MulNum => "num.mul"@,
        Instr::DivNum => "num.div"@,
        Instr::EqNum => "num.eq"@,
        Instr::LessNum => "num.less"@,
        Instr::MoreNum => "num.more"@,
        Instr::LessEqNum => "num.less_eq"@,
        Instr::MoreEqNum => "num.more_eq"@,
        Instr::EqChar => "char.eq"@,
    }
}

/// The line of a listing for the instruction at address `a`.
pub open spec fn instr_line(ins: Instr, a: usize) -> Seq<char> {
    hex3_text(a as nat) + " | "@ + pad_left(signed_text(stack_diff(ins)), 3, ' ') + " | "@
        + instr_text(ins, a) + "\n"@
}

/// The line of a listing for a debug note.
pub open spec fn note_line(msg: Seq<char>) -> Seq<char> {
    " ...  | <--------- "@ + msg + "\n"@
}

/// The lines of the notes recorded at address `a`, in the order of `notes`.
pub open spec fn notes_text(notes: Seq<(usize, Seq<char>)>, a: int) -> Seq<char>
    decreases notes.len(),
{
    if notes.len() == 0 {
        seq![]
    } else {
        notes_text(notes.drop_last(), a) + if notes.last().0 == a {
            note_line(notes.last().1)
        } else {
            seq![]
        }
    }
}

/// The listing of the first `k` instructions, each preceded by its notes.
pub open spec fn listing_upto(instrs: Seq<Instr>, notes: Seq<(usize, Seq<char>)>, k: nat) -> Seq<
    char,
>
    decreases k,
{
    if k == 0 {
        seq![]
    } else {
        listing_upto(instrs, notes, (k - 1) as nat) + notes_text(notes, k - 1) + instr_line(
            instrs[k - 1],
            (k - 1) as usize,
        )
    }
}

/// The whole listing of a program: every instruction, each preceded by the
/// debug notes recorded at its address, then the instruction count.
pub open spec fn listing(instrs: Seq<Instr>, notes: Seq<(usize, Seq<char>)>) -> Seq<char> {
    listing_upto(instrs, notes, instrs.len()) + dec_digits(instrs.len()) + " instructions in total.\n"@
}

#[verifier::spinoff_prover]
#[verifier::rlimit(30)]
fn stack_change(ins: Instr) -> (d: isize)
    requires
        diff_defined(ins),
    ensures
        d == stack_diff(ins),
{
    match ins {
        Instr::Error(_) | Instr::Nop | Instr::Break => 0,
        Instr::Imm(_) => 1,
        Instr::Pop(n) => -to_signed(n),
        Instr::Replace => -1,
        Instr::Call(_) => 0,
        Instr::Ret => 0,
        Instr::MakeFunc(_, n) => -to_signed(n),
        Instr::ApplyFunc => 0,
        Instr::MakeList(n) => -to_signed(n) + 1,
        Instr::IndexList(_) => 0,
        Instr::SkipList(_) => 0,
        Instr::LenList => 0,
        Instr::JoinList => -1,
        Instr::MakeSum(_) => 0,
        Instr::IndexSum(_) => 0,
        Instr::VariantSum => 0,
        Instr::Dup => 1,
        Instr::Jump(_) => 0,
        Instr::IfNot => -1,
        Instr::PushLocal => -1,
        Instr::PopLocal(_) => 0,
        Instr::GetLocal(_) => 1,
        Instr::NotBool | Instr::NegInt | Instr::NegNum => 0,
        Instr::EqBool | Instr::AndBool | Instr::AddInt | Instr::SubInt | Instr::MulInt
        | Instr::DivInt | Instr::RemInt | Instr::EqInt | Instr::LessInt | Instr::MoreInt
        | Instr::LessEqInt | Instr::MoreEqInt | Instr::AddNum | Instr::SubNum | Instr::MulNum
        | Instr::DivNum | Instr::EqNum | Instr::LessNum | Instr::MoreNum | Instr::LessEqNum
        | Instr::MoreEqNum | Instr::EqChar => -1,
    }
}

fn push_target(out: &mut String, word: &str, addr: Addr, rel: isize)
    requires
        jump_defined(addr.0, rel as int),
    ensures
        final(out)@ == old(out)@ + word@ + signed_text(rel as int) + " ("@ + hex3_text(
            jump_target(addr.0, rel as int) as nat,
        ) + ")"@,
{
    push_str(out, word);
    push_signed(out, rel as i64);
    push_str(out, " (");
    push_hex3(out, addr.jump(rel).0 as u64);
    push_str(out, ")");
    assert(final(out)@ =~= old(out)@ + word@ + signed_text(rel as int) + " ("@ + hex3_text(
        jump_target(addr.0, rel as int) as nat,
    ) + ")"@);
}

fn push_counted(out: &mut String, word: &str, n: usize)
    ensures
        final(out)@ == old(out)@ + word@ + dec_digits(n as nat),
{
    push_str(out, word);
    push_dec(out, n as u64);
    assert(final(out)@ =~= old(out)@ + word@ + dec_digits(n as nat));
}

#[verifier::spinoff_prover]
#[verifier::rlimit(30)]
fn push_instr_text(out: &mut String, ins: Instr, addr: Addr)
    requires
        listable(ins, addr.0),
    ensures
        final(out)@ == old(out)@ + instr_text(ins, addr.0),
{
    match ins {
        Instr::Error(msg) => {
            push_str(out, "error \"");
            push_str(out, msg);
            push_str(out, "\"");
        },
        Instr::Nop => push_str(out, "nop"),
        Instr::Break => push_str(out, "break"),
        Instr::Imm(x) => {
            push_str(out, "imm `");
            push_value(out, x);
            push_str(out, "`");
        },
        Instr::Pop(n) => push_counted(out, "pop ", n),
        Instr::Replace => push_str(out, "replace"),
        Instr::Call(x) => push_target(out, "call ", addr, x),
        Instr::Ret => push_str(out, "ret"),
        Instr::MakeFunc(i, n) => {
            push_str(out, "func.make ");
            push_signed(out, i as i64);
            push_str(out, " (");
            push_hex3(out, addr.jump(i).0 as u64);
            push_str(out, ") ");
            push_dec(out, n as u64);
        },
        Instr::ApplyFunc => push_str(out, "func.apply"),
        Instr::MakeList(n) => push_counted(out, "list.make ", n),
        Instr::IndexList(i) => push_counted(out, "list.index #", i),
        Instr::SkipList(i) => push_counted(out, "list.skip #", i),
        Instr::LenList => push_str(out, "list.len"),
        Instr::JoinList => push_str(out, "list.join"),
        Instr::MakeSum(i) => push_counted(out, "sum.make #", i),
        Instr::IndexSum(i) => push_counted(out, "sum.index #", i),
        Instr::VariantSum => push_str(out, "sum.variant"),
        Instr::Dup => push_str(out, "dup"),
        Instr::Jump(x) => push_target(out, "jump ", addr, x),
        Instr::IfNot => push_str(out, "if_not"),
        Instr::PushLocal => push_str(out, "local.push"),
        Instr::PopLocal(n) => push_counted(out, "local.pop ", n),
        Instr::GetLocal(x) => push_counted(out, "local.get +", x),
        Instr::NotBool => push_str(out, "bool.not"),
        Instr::AndBool => push_str(out, "bool.and"),
        Instr::EqBool => push_str(out, "bool.eq"),
        Instr::NegInt => push_str(out, "int.neg"),
        Instr::AddInt => push_str(out, "int.add"),
        Instr::SubInt => push_str(out, "int.sub"),
        Instr::MulInt => push_str(out, "int.mul"),
        Instr::DivInt => push_str(out, "int.div"),
        Instr::RemInt => push_str(out, "int.rem"),
        Instr::EqInt => push_str(out, "int.eq"),
        Instr::LessInt => push_str(out, "int.less"),
        Instr::MoreInt => push_str(out, "int.more"),
        Instr::LessEqInt => push_str(out, "int.less_eq"),
        Instr::MoreEqInt => push_str(out, "int.more_eq"),
        Instr::NegNum => push_str(out, "num.neg"),
        Instr::AddNum => push_str(out, "num.add"),
        Instr::SubNum => push_str(out, "num.sub"),
        Instr::MulNum => push_str(out, "num.mul"),
        Instr::DivNum => push_str(out, "num.div"),
        Instr::EqNum => push_str(out, "num.eq"),
        Instr::LessNum => push_str(out, "num.less"),
        Instr::MoreNum => push_str(out, "num.more"),
        Instr::LessEqNum => push_str(out, "num.less_eq"),
        Instr::MoreEqNum => push_str(out, "num.more_eq"),
        Instr::EqChar => push_str(out, "char.eq"),
    }
    assert(final(out)@ =~= old(out)@ + instr_text(ins, addr.0));
}

/// A program under construction: its instructions, its entry address, and
/// debug notes, each recorded at the address of the next instruction.
#[derive(Debug)]
pub struct Program {
    instrs: Vec<Instr>,
    pub entry: Addr,
    debug: Vec<(Addr, String)>,
}

/// The instruction that fetching from `ip` gives: the one stored there, or an
/// error instruction past the end.
pub open spec fn fetch(instrs: Seq<Instr>, ip: usize) -> Instr {
    if ip < instrs.len() {
        instrs[ip as int]
    } else {
        Instr::Error("out of bounds instruction")
    }
}

impl Program {
    /// The instructions, in address order.
    pub closed spec fn instr_seq(&self) -> Seq<Instr> {
        self.instrs@
    }

    /// The entry address.
    pub closed spec fn entry_addr(&self) -> Addr {
        self.entry
    }

    /// The debug notes: the address each was recorded at, and its text.
    pub closed spec fn debug_notes(&self) -> Seq<(usize, Seq<char>)> {
        self.debug@.map_values(|p: (Addr, String)| (p.0.0, p.1@))
    }

    /// Notes are recorded in address order, never past the next address.
    pub open spec fn wf(&self) -> bool {
        &&& forall|i: int, j: int|
            0 <= i <= j < self.debug_notes().len() ==> #[trigger] self.debug_notes()[i].0
                <= #[trigger] self.debug_notes()[j].0
        &&& forall|i: int|
            0 <= i < self.debug_notes().len() ==> #[trigger] self.debug_notes()[i].0
                <= self.instr_seq().len()
    }

    /// Every instruction can be listed at its address.
    pub open spec fn listable(&self) -> bool {
        forall|a: int|
            0 <= a < self.instr_seq().len() ==> listable(#[trigger] self.instr_seq()[a], a as usize)
    }

    /// Records a debug note at the address of the next instruction.
    pub fn debug(&mut self, msg: String)
        ensures
            old(self).wf() ==> final(self).wf(),
            final(self).instr_seq() == old(self).instr_seq(),
            final(self).entry_addr() == old(self).entry_addr(),
            final(self).debug_notes() == old(self).debug_notes().push(
                (old(self).instr_seq().len() as usize, msg@),
            ),
    {
        let addr = self.next_addr();
        self.debug.push((addr, msg));
        assert(self.debug_notes() =~= old(self).debug_notes().push(
            (old(self).instr_seq().len() as usize, msg@),
        ));
    }

    /// The entry address.
    pub fn entry(&self) -> (r: Addr)
        ensures
            r == self.entry_addr(),
    {
        self.entry
    }

    /// Sets the entry address; instructions and notes stay as they are.
    pub fn set_entry(&mut self, entry: Addr)
        ensures
            final(self).entry_addr() == entry,
            final(self).instr_seq() == old(self).instr_seq(),
            final(self).debug_notes() == old(self).debug_notes(),
            old(self).wf() ==> final(self).wf(),
    {
        self.entry = entry;
        assert(self.debug_notes() == old(self).debug_notes());
    }

    /// The address the next pushed instruction will get.
    pub fn next_addr(&self) -> (r: Addr)
        ensures
            r.0 == self.instr_seq().len(),
    {
        Addr(self.instrs.len())
    }

    /// The instruction at `ip`, or an error instruction past the end.
    pub fn instr(&self, ip: Addr) -> (r: Instr)
        ensures
            r == fetch(self.instr_seq(), ip.0),
    {
        if ip.0 < self.instrs.len() {
            self.instrs[ip.0]
        } else {
            Instr::Error("out of bounds instruction")
        }
    }

    /// Appends an instruction and returns its address.
    pub fn push(&mut self, instr: Instr) -> (r: Addr)
        ensures
            old(self).wf() ==> final(self).wf(),
            r.0 == old(self).instr_seq().len(),
            final(self).instr_seq() == old(self).instr_seq().push(instr),
            final(self).debug_notes() == old(self).debug_notes(),
            final(self).entry_addr() == old(self).entry_addr(),
    {
        let addr = self.next_addr();
        self.instrs.push(instr);
        assert(self.debug_notes() == old(self).debug_notes());
        assert(self.instr_seq().len() == old(self).instr_seq().len() + 1);
        addr
    }

    /// Replaces the instruction at `addr` by what `make_instr` makes of the
    /// relative jump from `addr` to `tgt`.
    pub fn fixup<F: FnOnce(isize) -> Instr>(&mut self, addr: Addr, tgt: Addr, make_instr: F)
        requires
            addr.0 < old(self).instr_seq().len(),
            offset_defined(addr.0, tgt.0),
            make_instr.requires((offset(addr.0, tgt.0) as isize,)),
        ensures
            old(self).wf() ==> final(self).wf(),
            final(self).instr_seq().len() == old(self).instr_seq().len(),
            make_instr.ensures(
                (offset(addr.0, tgt.0) as isize,),
                final(self).instr_seq()[addr.0 as int],
            ),
            forall|i: int|
                0 <= i < old(self).instr_seq().len() && i != addr.0
                    ==> #[trigger] final(self).instr_seq()[i] == old(self).instr_seq()[i],
            final(self).debug_notes() == old(self).debug_notes(),
            final(self).entry_addr() == old(self).entry_addr(),
    {
        let rel = addr.jump_to(tgt);
        let instr = make_instr(rel);
        self.instrs.set(addr.0, instr);
        assert(self.debug_notes() == old(self).debug_notes());
    }
}

proof fn lemma_notes_text_concat(x: Seq<(usize, Seq<char>)>, y: Seq<(usize, Seq<char>)>, a: int)
    ensures
        notes_text(x + y, a) == notes_text(x, a) + notes_text(y, a),
    decreases y.len(),
{
    if y.len() == 0 {
        assert(x + y =~= x);
        assert(notes_text(x, a) + notes_text(y, a) =~= notes_text(x, a));
    } else {
        assert((x + y).drop_last() =~= x + y.drop_last());
        lemma_notes_text_concat(x, y.drop_last(), a);
        assert(notes_text(x + y, a) =~= notes_text(x, a) + notes_text(y, a));
    }
}

proof fn lemma_notes_text_absent(x: Seq<(usize, Seq<char>)>, a: int)
    requires
        forall|k: int| 0 <= k < x.len() ==> #[trigger] x[k].0 != a,
    ensures
        notes_text(x, a) == Seq::<char>::empty(),
    decreases x.len(),
{
    if x.len() > 0 {
        lemma_notes_text_absent(x.drop_last(), a);
    }
}

proof fn lemma_notes_at(notes: Seq<(usize, Seq<char>)>, j0: int, j: int, a: int)
    requires
        0 <= j0 <= j <= notes.len(),
        forall|x: int, y: int| 0 <= x <= y < notes.len() ==> #[trigger] notes[x].0 <= #[trigger] notes[y].0,
        forall|k: int| 0 <= k < j0 ==> #[trigger] notes[k].0 < a,
        forall|k: int| j0 <= k < j ==> #[trigger] notes[k].0 == a,
        forall|k: int| j <= k < notes.len() ==> #[trigger] notes[k].0 >= a,
        j < notes.len() ==> notes[j].0 != a,
    ensures
        notes_text(notes, a) == notes_text(notes.subrange(j0, j), a),
        forall|k: int| j <= k < notes.len() ==> #[trigger] notes[k].0 >= a + 1,
{
    if j < notes.len() {
        assert forall|k: int| j <= k < notes.len() implies #[trigger] notes[k].0 >= a + 1 by {
            assert(notes[j].0 <= notes[k].0);
        }
    }
    let p = notes.subrange(0, j0);
    let m = notes.subrange(j0, j);
    let q = notes.subrange(j, notes.len() as int);
    assert(notes =~= p + m + q);
    lemma_notes_text_concat(p + m, q, a);
    lemma_notes_text_concat(p, m, a);
    assert forall|k: int| 0 <= k < p.len() implies #[trigger] p[k].0 != a by {
        assert(p[k] == notes[k]);
    }
    assert forall|k: int| 0 <= k < q.len() implies #[trigger] q[k].0 != a by {
        assert(q[k] == notes[j + k]);
    }
    lemma_notes_text_absent(p, a);
    lemma_notes_text_absent(q, a);
    assert(notes_text(notes, a) =~= notes_text(m, a));
}

fn jump_ok(a: usize, rel: isize) -> (r: bool)
    ensures
        r == jump_defined(a, rel as int),
{
    to_signed(a).checked_add(rel).is_some()
}

/// Whether the instruction at address `a` can be listed.
pub fn instr_listable(ins: Instr, a: Addr) -> (r: bool)
    ensures
        r == listable(ins, a.0),
{
    match ins {
        Instr::Pop(n) => to_signed(n) != isize::MIN,
        Instr::MakeList(n) => to_signed(n) > isize::MIN + 1,
        Instr::MakeFunc(i, n) => to_signed(n) != isize::MIN && jump_ok(a.0, i),
        Instr::Call(x) => jump_ok(a.0, x),
        Instr::Jump(x) => jump_ok(a.0, x),
        _ => true,
    }
}

fn push_instr_line(out: &mut String, ins: Instr, addr: Addr)
    requires
        listable(ins, addr.0),
    ensures
        final(out)@ == old(out)@ + instr_line(ins, addr.0),
{
    push_hex3(out, addr.0 as u64);
    push_str(out, " | ");
    push_signed_right3(out, stack_change(ins) as i64);
    push_str(out, " | ");
    push_instr_text(out, ins, addr);
    push_str(out, "\n");
    assert(final(out)@ =~= old(out)@ + instr_line(ins, addr.0));
}

impl Program {
    /// Whether the program is well-formed: its notes are in address order and
    /// none lies past the next address.
    pub fn is_well_formed(&self) -> (r: bool)
        ensures
            r == self.wf(),
    {
        let n = self.instrs.len();
        let ghost notes = self.debug_notes();
        let mut i: usize = 0;
        while i < self.debug.len()
            invariant
                notes == self.debug_notes(),
                n == self.instr_seq().len(),
                i <= notes.len(),
                forall|x: int, y: int| 0 <= x <= y < i ==> #[trigger] notes[x].0 <= #[trigger] notes[y].0,
                forall|x: int| 0 <= x < i ==> #[trigger] notes[x].0 <= n,
            decreases notes.len() - i,
        {
            proof {
                assert(notes[i as int].0 == self.debug@[i as int].0.0);
                if i > 0 {
                    assert(notes[i - 1].0 == self.debug@[i - 1].0.0);
                }
            }
            if self.debug[i].0.0 > n {
                return false;
            }
            if i > 0 && self.debug[i - 1].0.0 > self.debug[i].0.0 {
                return false;
            }
            proof {
                assert forall|x: int, y: int| 0 <= x <= y < i + 1 implies #[trigger] notes[x].0
                    <= #[trigger] notes[y].0 by {
                    if y == i && x < i {
                        assert(notes[x].0 <= notes[i - 1].0);
                    }
                }
            }
            i += 1;
        }
        true
    }

    /// Whether every instruction of the program can be listed at its address.
    pub fn is_listable(&self) -> (r: bool)
        ensures
            r == self.listable(),
    {
        let mut a: usize = 0;
        while a < self.instrs.len()
            invariant
                a <= self.instr_seq().len(),
                forall|k: int| 0 <= k < a ==> listable(#[trigger] self.instr_seq()[k], k as usize),
            decreases self.instr_seq().len() - a,
        {
            if !instr_listable(self.instrs[a], Addr(a)) {
                return false;
            }
            a += 1;
        }
        true
    }

    /// Writes the listing of the program into `out`: one line per
    /// instruction, each preceded by the debug notes recorded at its address,
    /// then the number of instructions.
    #[verifier::spinoff_prover]
    #[verifier::rlimit(30)]
    pub fn write(&self, out: &mut String)
        requires
            self.wf(),
            self.listable(),
        ensures
            final(out)@ == old(out)@ + listing(self.instr_seq(), self.debug_notes()),
    {
        let n = self.instrs.len();
        let dn = self.debug.len();
        let ghost notes = self.debug_notes();
        let ghost instrs = self.instr_seq();
        let mut a: usize = 0;
        let mut j: usize = 0;
        while a < n
            invariant
                n == instrs.len(),
                dn == notes.len(),
                notes == self.debug_notes(),
                instrs == self.instr_seq(),
                self.wf(),
                self.listable(),
                a <= n,
                j <= dn,
                forall|k: int| 0 <= k < j ==> #[trigger] notes[k].0 < a,
                forall|k: int| j <= k < dn ==> #[trigger] notes[k].0 >= a,
                out@ == old(out)@ + listing_upto(instrs, notes, a as nat),
            decreases n - a,
        {
            let j0 = j;
            let ghost before = out@;
            while j < dn && self.debug[j].0.0 == a
                invariant
                    dn == notes.len(),
                    notes == self.debug_notes(),
                    j0 <= j <= dn,
                    forall|k: int| j0 <= k < j ==> #[trigger] notes[k].0 == a,
                    forall|k: int| j <= k < dn ==> #[trigger] notes[k].0 >= a,
                    out@ == before + notes_text(notes.subrange(j0 as int, j as int), a as int),
                decreases dn - j,
            {
                proof {
                    assert(notes[j as int].0 == self.debug@[j as int].0.0);
                }
                push_str(out, " ...  | <--------- ");
                push_str(out, self.debug[j].1.as_str());
                push_str(out, "\n");
                proof {
                    assert(notes[j as int].1 == self.debug@[j as int].1@);
                    let s = notes.subrange(j0 as int, j + 1);
                    assert(s.drop_last() =~= notes.subrange(j0 as int, j as int));
                    assert(s.last() == notes[j as int]);
                }
                j += 1;
                assert(out@ =~= before + notes_text(notes.subrange(j0 as int, j as int), a as int));
            }
            proof {
                if j < dn {
                    assert(notes[j as int].0 == self.debug@[j as int].0.0);
                }
                lemma_notes_at(notes, j0 as int, j as int, a as int);
            }
            let ins = self.instrs[a];
            push_instr_line(out, ins, Addr(a));
            a += 1;
            assert(out@ =~= old(out)@ + listing_upto(instrs, notes, a as nat));
        }
        push_dec(out, n as u64);
        push_str(out, " instructions in total.\n");
        assert(final(out)@ =~= old(out)@ + listing(self.instr_seq(), self.debug_notes()));
    }
}

impl Default for Program {
    fn default() -> (r: Self)
        ensures
            r.wf(),
            r.instr_seq() == Seq::<Instr>::empty(),
            r.debug_notes() == Seq::<(usize, Seq<char>)>::empty(),
            r.entry_addr().0 == 0,
    {
        let r = Program { instrs: Vec::new(), entry: Addr::default(), debug: Vec::new() };
        assert(r.debug_notes() =~= Seq::<(usize, Seq<char>)>::empty());
        r
    }
}

/// Jumping from `a` by the offset from `a` to `b` lands on `b`.
pub proof fn lemma_jump_to_then_jump(a: usize, b: usize)
    requires
        offset_defined(a, b),
    ensures
        jump_defined(a, offset(a, b)),
        jump_target(a, offset(a, b)) == b,
{
}

/// The offset from `a` to the target of a jump of `rel` from `a` is `rel`.
pub proof fn lemma_jump_then_jump_to(a: usize, rel: isize)
    requires
        jump_defined(a, rel as int),
    ensures
        0 <= jump_target(a, rel as int) <= usize::MAX,
        offset_defined(a, jump_target(a, rel as int) as usize),
        offset(a, jump_target(a, rel as int) as usize) == rel,
{
    lemma_word_bounds();
}

/// Stepping to the next address is a jump by one, where that jump is defined.
pub proof fn lemma_incr_is_jump_by_one(a: usize)
    requires
        a < usize::MAX,
        jump_defined(a, 1),
    ensures
        jump_target(a, 1) == a + 1,
{
    lemma_word_bounds();
}

proof fn lemma_word_bounds()
    ensures
        usize::MAX == 2 * isize::MAX + 1,
        isize::MIN == -isize::MAX - 1,
{
    assert(usize::MAX == 2 * isize::MAX + 1);
    assert(isize::MIN == -isize::MAX - 1);
}

/// Fetching from the address that `push` returned gives the pushed
/// instruction; every other address fetches what it fetched before.
pub proof fn lemma_fetch_after_push(instrs: Seq<Instr>, instr: Instr, ip: usize)
    ensures
        fetch(instrs.push(instr), instrs.len() as usize) == instr || instrs.len() > usize::MAX,
        ip != instrs.len() ==> fetch(instrs.push(instr), ip) == fetch(instrs, ip),
{
}

proof fn lemma_listing_upto_extend(
    instrs: Seq<Instr>,
    notes: Seq<(usize, Seq<char>)>,
    instr: Instr,
    msg: Seq<char>,
    k: nat,
)
    requires
        k <= instrs.len() <= usize::MAX,
    ensures
        listing_upto(instrs.push(instr), notes.push((instrs.len() as usize, msg)), k)
            == listing_upto(instrs, notes, k),
    decreases k,
{
    if k > 0 {
        lemma_listing_upto_extend(instrs, notes, instr, msg, (k - 1) as nat);
        let notes2 = notes.push((instrs.len() as usize, msg));
        assert(notes2.drop_last() =~= notes);
        assert(notes_text(notes2, k - 1) == notes_text(notes, k - 1));
        assert(instrs.push(instr)[k - 1] == instrs[k - 1]);
    }
}

/// The lines for the instructions at addresses `lo` up to `hi`, each preceded by its notes.
pub open spec fn listing_between(instrs: Seq<Instr>, notes: Seq<(usize, Seq<char>)>, lo: nat, hi: nat) -> Seq<
    char,
>
    decreases hi,
{
    if hi <= lo {
        seq![]
    } else {
        listing_between(instrs, notes, lo, (hi - 1) as nat) + notes_text(notes, hi - 1) + instr_line(
            instrs[hi - 1],
            (hi - 1) as usize,
        )
    }
}

proof fn lemma_listing_split(instrs: Seq<Instr>, notes: Seq<(usize, Seq<char>)>, k: nat, n: nat)
    requires
        k <= n,
    ensures
        listing_upto(instrs, notes, n) == listing_upto(instrs, notes, k) + listing_between(
            instrs,
            notes,
            k,
            n,
        ),
    decreases n,
{
    if n > k {
        lemma_listing_split(instrs, notes, k, (n - 1) as nat);
        assert(listing_upto(instrs, notes, n) =~= listing_upto(instrs, notes, k) + listing_between(
            instrs,
            notes,
            k,
            n,
        ));
    } else {
        assert(listing_upto(instrs, notes, n) =~= listing_upto(instrs, notes, k) + listing_between(
            instrs,
            notes,
            k,
            n,
        ));
    }
}

/// Where a debug note stands in a program's listing, whatever was pushed,
/// noted or patched since it was recorded: a note recorded at address `k`
/// (a note keeps its address and its place among the notes, see `debug`,
/// `push` and `fixup`) of a program with more than `k` instructions is listed
/// once, after the lines of the instructions before `k`, after the notes
/// recorded at `k` before it, before the notes recorded at `k` after it, and
/// before the line of the instruction at `k`.
pub proof fn lemma_note_placement(p: &Program, i: int)
    requires
        0 <= i < p.debug_notes().len(),
        p.debug_notes()[i].0 < p.instr_seq().len(),
    ensures
        ({
            let notes = p.debug_notes();
            let instrs = p.instr_seq();
            let k = notes[i].0;
            listing(instrs, notes) == listing_upto(instrs, notes, k as nat) + notes_text(
                notes.subrange(0, i),
                k as int,
            ) + note_line(notes[i].1) + notes_text(notes.subrange(i + 1, notes.len() as int), k as int)
                + instr_line(instrs[k as int], k) + listing_between(
                instrs,
                notes,
                (k + 1) as nat,
                instrs.len(),
            ) + dec_digits(instrs.len()) + " instructions in total.\n"@
        }),
        ({
            let notes = p.debug_notes();
            let instrs = p.instr_seq();
            let k = notes[i].0;
            k > 0 ==> listing_upto(instrs, notes, k as nat) == listing_upto(
                instrs,
                notes,
                (k - 1) as nat,
            ) + notes_text(notes, k - 1) + instr_line(instrs[k - 1], (k - 1) as usize)
        }),
{
    let notes = p.debug_notes();
    let instrs = p.instr_seq();
    let k = notes[i].0;
    let n = instrs.len();
    let a = notes.subrange(0, i);
    let m = seq![notes[i]];
    let b = notes.subrange(i + 1, notes.len() as int);
    assert(notes =~= a + m + b);
    lemma_notes_text_concat(a + m, b, k as int);
    lemma_notes_text_concat(a, m, k as int);
    assert(m.drop_last() =~= Seq::<(usize, Seq<char>)>::empty());
    assert(m.last() == notes[i]);
    assert(notes_text(m.drop_last(), k as int) =~= Seq::<char>::empty());
    assert(notes_text(m, k as int) =~= note_line(notes[i].1));
    lemma_listing_split(instrs, notes, (k + 1) as nat, n);
    assert(listing(instrs, notes) =~= listing_upto(instrs, notes, k as nat) + notes_text(
        a,
        k as int,
    ) + note_line(notes[i].1) + notes_text(b, k as int) + instr_line(instrs[k as int], k)
        + listing_between(instrs, notes, (k + 1) as nat, n) + dec_digits(n)
        + " instructions in total.\n"@);
}

/// A debug note recorded just before an instruction is pushed is listed right
/// before that instruction, after the notes recorded there earlier, and the
/// lines for the earlier instructions stay as they were.
pub proof fn lemma_note_precedes_next_instr(
    instrs: Seq<Instr>,
    notes: Seq<(usize, Seq<char>)>,
    msg: Seq<char>,
    instr: Instr,
)
    requires
        instrs.len() < usize::MAX,
    ensures
        ({
            let n = instrs.len();
            let notes2 = notes.push((n as usize, msg));
            listing_upto(instrs.push(instr), notes2, n + 1) == listing_upto(instrs, notes, n)
                + notes_text(notes, n as int) + note_line(msg) + instr_line(instr, n as usize)
        }),
{
    let n = instrs.len();
    let notes2 = notes.push((n as usize, msg));
    lemma_listing_upto_extend(instrs, notes, instr, msg, n);
    assert(notes2.drop_last() =~= notes);
    assert(instrs.push(instr)[n as int] == instr);
    assert(listing_upto(instrs.push(instr), notes2, n + 1) =~= listing_upto(instrs, notes, n)
        + notes_text(notes, n as int) + note_line(msg) + instr_line(instr, n as usize));
}

/// The stack effect of each operation, as its argument and result types
/// give it: a one-argument operation replaces its argument, a two-argument
/// operation replaces its two arguments by one result; an immediate or a
/// duplicate adds one slot, a conditional jump consumes its condition.
pub proof fn lemma_operation_stack_effects(ins: Instr)
    ensures
        (ins is NotBool || ins is NegInt || ins is NegNum) ==> stack_diff(ins) == 0,
        (ins is AndBool || ins is EqBool || ins is AddInt || ins is SubInt || ins is MulInt
            || ins is DivInt || ins is RemInt || ins is EqInt || ins is LessInt || ins is MoreInt
            || ins is LessEqInt || ins is MoreEqInt || ins is AddNum || ins is SubNum
            || ins is MulNum || ins is DivNum || ins is EqNum || ins is LessNum || ins is MoreNum
            || ins is LessEqNum || ins is MoreEqNum || ins is EqChar || ins is JoinList)
            ==> stack_diff(ins) == -1,
        (ins is Imm || ins is Dup || ins is GetLocal) ==> stack_diff(ins) == 1,
        (ins is IfNot || ins is PushLocal || ins is Replace) ==> stack_diff(ins) == -1,
        (ins is Nop || ins is Break || ins is Error || ins is Call || ins is Ret || ins is Jump
            || ins is ApplyFunc || ins is IndexList || ins is SkipList || ins is LenList
            || ins is MakeSum || ins is IndexSum || ins is VariantSum || ins is PopLocal)
            ==> stack_diff(ins) == 0,
        ins matches Instr::Pop(n) ==> stack_diff(ins) == -signed(n),
        ins matches Instr::MakeFunc(_, n) ==> stack_diff(ins) == -signed(n),
        ins matches Instr::MakeList(n) ==> stack_diff(ins) == 1 - signed(n),
{
}

} // verus!
