use vstd::prelude::*;

use crate::attribute::{Attribute, AttributeCode};
use crate::class::{Class, Method};
use crate::constant::{class_name_text, pool_entry, pool_get, utf8_text, Constant};
use crate::error::JvmError;
use crate::loader::{lookup, lemma_lookup_found, ClassLoader};

verus! {

/// The deepest call stack the engine runs; one more invocation is a
/// capacity error.
pub const MAX_FRAMES: usize = 1024;

/// A frame as the contracts see it.
pub struct FrameView {
    pub class_name: Seq<char>,
    pub pc: int,
    pub code: Seq<u8>,
    pub max_stack: int,
    pub max_locals: int,
    pub locals: Seq<Option<u32>>,
    pub operands: Seq<Option<u32>>,
}

/// One invocation's private state: the owning class (by name), a program
/// counter into a private copy of the method's bytecode, and local-variable
/// and operand storage bounded by the method's declared sizes. An operand is
/// an int's bit pattern, or `None` for the null reference.
#[derive(Debug)]
pub struct Frame {
    pub class_name: String,
    pub pc: usize,
    pub code: Vec<u8>,
    pub max_stack: u16,
    pub max_locals: u16,
    pub local_variables: Vec<Option<u32>>,
    pub operand_stack: Vec<Option<u32>>,
}

impl View for Frame {
    type V = FrameView;

    open spec fn view(&self) -> FrameView {
        FrameView {
            class_name: self.class_name@,
            pc: self.pc as int,
            code: self.code@,
            max_stack: self.max_stack as int,
            max_locals: self.max_locals as int,
            locals: self.local_variables@,
            operands: self.operand_stack@,
        }
    }
}

impl Frame {
    /// The next code byte; the program counter moves past it. At the end of
    /// the code there is none: the frame is left as it is.
    pub fn read_code(&mut self) -> (r: Result<u8, JvmError>)
        ensures
            old(self).pc <= old(self).code@.len() ==> final(self).pc <= final(self).code@.len(),
            old(self).pc < old(self).code@.len() ==> r == Ok::<u8, JvmError>(
                old(self).code@[old(self).pc as int],
            ) && final(self)@ == (FrameView { pc: old(self).pc + 1, ..old(self)@ }),
            old(self).pc >= old(self).code@.len() ==> r == Err::<u8, JvmError>(
                JvmError::EndOfCode { pc: old(self).pc },
            ) && final(self)@ == old(self)@,
    {
        if self.pc >= self.code.len() {
            return Err(JvmError::EndOfCode { pc: self.pc });
        }
        let c = self.code[self.pc];
        self.pc = self.pc + 1;
        Ok(c)
    }
}

/// One decoded instruction of the supported set.
#[derive(Clone, Copy, Debug, PartialEq, Eq, Structural)]
pub enum Instruction {
    /// `nop`
    Nop,
    /// `aconst_null`: push the null reference.
    AconstNull,
    /// `iconst_m1` to `iconst_5`: push a small int constant.
    Iconst(i32),
    /// `bipush`: push a sign-extended byte.
    Bipush(i8),
    /// `sipush`: push a sign-extended short.
    Sipush(i16),
    /// `ldc`: push the Integer constant at a one-byte pool index.
    Ldc(u8),
    /// `return`
    Return,
    /// `ireturn`; the value is not handed to the caller.
    Ireturn,
    /// `invokestatic`: call the method that a Methodref at a two-byte pool
    /// index names.
    Invokestatic(u16),
}

/// The listing line for an opcode: its mnemonic and what it does, or a
/// marker for an opcode the listing does not name.
pub open spec fn opcode_name(code: u8) -> Seq<char> {
    if code == 0 {
        "nop              :Do nothing"@
    } else if code == 1 {
        "aconst_null      :Push null"@
    } else if code == 4 {
        "iconst_<1>       :Push int constant"@
    } else if code == 5 {
        "iconst_<2>       :Push int constant"@
    } else if code == 7 {
        "iconst_<4>       :Push int constant"@
    } else if code == 16 {
        "lload            :Load long from local variable"@
    } else if code == 26 {
        "iload_<0>        :Load int from local variable"@
    } else if code == 27 {
        "iload_<1>        :Load int from local variable"@
    } else if code == 28 {
        "iload_<2>        :Load int from local variable"@
    } else if code == 42 {
        "aload_<0>        :Load reference from local variable"@
    } else if code == 60 {
        "istore_<1>       :Store int into local variable"@
    } else if code == 87 {
        "pop              :Pop the top operand stack value"@
    } else if code == 96 {
        "iadd             :Add int"@
    } else if code == 172 {
        "ireturn          :Return int from method"@
    } else if code == 177 {
        "return           :Return void from method"@
    } else if code == 178 {
        "getstatic        :Get static field from class"@
    } else if code == 183 {
        "invokespecial    :Invoke instance method; direct invocation of instance initialization methods and methods of the current class and its supertypes"@
    } else if code == 184 {
        "invokestatic     :Invoke a class (static) method"@
    } else {
        "!!!!! UNKNOW !!!!!"@
    }
}

/// The listing line for an opcode, for dumps of bytecode.
pub fn code2name(code: u8) -> (r: &'static str)
    ensures
        r@ == opcode_name(code),
{
    match code {
        0 => "nop              :Do nothing",
        1 => "aconst_null      :Push null",
        4 => "iconst_<1>       :Push int constant",
        5 => "iconst_<2>       :Push int constant",
        7 => "iconst_<4>       :Push int constant",
        16 => "lload            :Load long from local variable",
        26 => "iload_<0>        :Load int from local variable",
        27 => "iload_<1>        :Load int from local variable",
        28 => "iload_<2>        :Load int from local variable",
        42 => "aload_<0>        :Load reference from local variable",
        60 => "istore_<1>       :Store int into local variable",
        87 => "pop              :Pop the top operand stack value",
        96 => "iadd             :Add int",
        172 => "ireturn          :Return int from method",
        177 => "return           :Return void from method",
        178 => "getstatic        :Get static field from class",
        183 => "invokespecial    :Invoke instance method; direct invocation of instance initialization methods and methods of the current class and its supertypes",
        184 => "invokestatic     :Invoke a class (static) method",
        _ => "!!!!! UNKNOW !!!!!",
    }
}

/// The instruction at `pc` of `code` and its length in bytes, immediate
/// operands included.
pub open spec fn decode_at(code: Seq<u8>, pc: int) -> Result<(Instruction, int), JvmError> {
    let op = code[pc];
    if op == 0x00 {
        Ok((Instruction::Nop, 1))
    } else if op == 0x01 {
        Ok((Instruction::AconstNull, 1))
    } else if 0x02 <= op <= 0x08 {
        Ok((Instruction::Iconst((op - 3) as i32), 1))
    } else if op == 0xB1 {
        Ok((Instruction::Return, 1))
    } else if op == 0xAC {
        Ok((Instruction::Ireturn, 1))
    } else if op == 0x10 || op == 0x12 {
        if pc + 2 > code.len() {
            Err(JvmError::TruncatedInstruction { pc: pc as usize })
        } else if op == 0x10 {
            Ok((Instruction::Bipush(code[pc + 1] as i8), 2))
        } else {
            Ok((Instruction::Ldc(code[pc + 1]), 2))
        }
    } else if op == 0x11 || op == 0xB8 {
        if pc + 3 > code.len() {
            Err(JvmError::TruncatedInstruction { pc: pc as usize })
        } else if op == 0x11 {
            Ok((Instruction::Sipush((code[pc + 1] as int * 256 + code[pc + 2]) as u16 as i16), 3))
        } else {
            Ok((Instruction::Invokestatic((code[pc + 1] as int * 256 + code[pc + 2]) as u16), 3))
        }
    } else {
        Err(JvmError::UnknownOpcode { opcode: op })
    }
}

impl Instruction {
    /// Decodes the instruction at `pc`, which must lie in the code. Pure: the
    /// caller moves its program counter by the length returned.
    pub fn decode(code: &Vec<u8>, pc: usize) -> (r: Result<(Instruction, usize), JvmError>)
        requires
            pc < code@.len(),
        ensures
            match (r, decode_at(code@, pc as int)) {
                (Ok((i, n)), Ok((i2, n2))) => i == i2 && n as int == n2,
                (Err(e), Err(e2)) => e == e2,
                _ => false,
            },
    {
        let op = code[pc];
        if op == 0x00 {
            Ok((Instruction::Nop, 1))
        } else if op == 0x01 {
            Ok((Instruction::AconstNull, 1))
        } else if 0x02 <= op && op <= 0x08 {
            Ok((Instruction::Iconst(op as i32 - 3), 1))
        } else if op == 0xB1 {
            Ok((Instruction::Return, 1))
        } else if op == 0xAC {
            Ok((Instruction::Ireturn, 1))
        } else if op == 0x10 || op == 0x12 {
            if code.len() - pc < 2 {
                Err(JvmError::TruncatedInstruction { pc })
            } else if op == 0x10 {
                Ok((Instruction::Bipush(code[pc + 1] as i8), 2))
            } else {
                Ok((Instruction::Ldc(code[pc + 1]), 2))
            }
        } else if op == 0x11 || op == 0xB8 {
            if code.len() - pc < 3 {
                Err(JvmError::TruncatedInstruction { pc })
            } else {
                let v: u16 = (code[pc + 1] as u16) * 256 + code[pc + 2] as u16;
                if op == 0x11 {
                    Ok((Instruction::Sipush(v as i16), 3))
                } else {
                    Ok((Instruction::Invokestatic(v), 3))
                }
            }
        } else {
            Err(JvmError::UnknownOpcode { opcode: op })
        }
    }
}

/// The class name with package separators unified to `/`.
pub open spec fn binary_name(s: Seq<char>) -> Seq<char> {
    s.map_values(|c: char| if c == '.' { '/' } else { c })
}

/// Relies on `str::replace`: every `.` becomes `/`, every other character
/// stays.
#[verifier::external_body]
fn dots_to_slashes(s: &str) -> (r: String)
    ensures
        r@ == binary_name(s@),
{
    s.replace('.', "/")
}

/// The value that `ldc` pushes for the pool entry at `index`: only an
/// Integer entry gives one.
pub open spec fn ldc_value(pool: Seq<Constant>, index: int) -> Result<u32, JvmError> {
    match pool_entry(pool, index) {
        Ok(Constant::Integer(x)) => Ok(x.bytes as u32),
        Ok(_) => Err(JvmError::WrongConstantKind { index: index as usize }),
        Err(e) => Err(e),
    }
}

/// The class and method names that the Methodref at `index` resolves to:
/// Methodref to Class to Utf8 for the class, Methodref to NameAndType to two
/// Utf8 entries for the name and the descriptor.
pub open spec fn methodref_target(pool: Seq<Constant>, index: int) -> Result<
    (Seq<char>, Seq<char>),
    JvmError,
> {
    match pool_entry(pool, index) {
        Ok(Constant::Methodref(m)) => match class_name_text(pool, m.class_index as int) {
            Ok(cn) => match pool_entry(pool, m.name_and_type_index as int) {
                Ok(Constant::NameAndType(nt)) => match utf8_text(pool, nt.name_index as int) {
                    Ok(mn) => match utf8_text(pool, nt.descriptor_index as int) {
                        Ok(_) => Ok((cn, mn)),
                        Err(e) => Err(e),
                    },
                    Err(e) => Err(e),
                },
                Ok(_) => Err(
                    JvmError::WrongConstantKind { index: m.name_and_type_index as usize },
                ),
                Err(e) => Err(e),
            },
            Err(e) => Err(e),
        },
        Ok(_) => Err(JvmError::WrongConstantKind { index: index as usize }),
        Err(e) => Err(e),
    }
}

/// The first Code attribute at or after `j`.
pub open spec fn first_code_from(attrs: Seq<Attribute>, j: int) -> Option<int>
    decreases attrs.len() - j,
{
    if j < 0 || j >= attrs.len() {
        None
    } else if attrs[j] is Code {
        Some(j)
    } else {
        first_code_from(attrs, j + 1)
    }
}

/// The first method at or after `i` named `name` that has a Code attribute,
/// with that attribute's index.
pub open spec fn method_code_from(methods: Seq<Method>, name: Seq<char>, i: int) -> Option<
    (int, int),
>
    decreases methods.len() - i,
{
    if i < 0 || i >= methods.len() {
        None
    } else if methods[i].name@ == name && first_code_from(methods[i].attributes@, 0) is Some {
        Some((i, first_code_from(methods[i].attributes@, 0).unwrap()))
    } else {
        method_code_from(methods, name, i + 1)
    }
}

pub proof fn lemma_first_code_from(attrs: Seq<Attribute>, j: int)
    requires
        0 <= j,
    ensures
        first_code_from(attrs, j) matches Some(k) ==> j <= k < attrs.len() && attrs[k] is Code,
    decreases attrs.len() - j,
{
    if j < attrs.len() && !(attrs[j] is Code) {
        lemma_first_code_from(attrs, j + 1);
    }
}

pub proof fn lemma_method_code_from(methods: Seq<Method>, name: Seq<char>, i: int)
    requires
        0 <= i,
    ensures
        method_code_from(methods, name, i) matches Some((m, k)) ==> i <= m < methods.len()
            && 0 <= k < methods[m].attributes@.len() && methods[m].attributes@[k] is Code,
    decreases methods.len() - i,
{
    if i < methods.len() {
        lemma_first_code_from(methods[i].attributes@, 0);
        lemma_method_code_from(methods, name, i + 1);
    }
}

/// A fresh frame over `code`, a method body of `class`: at the start of the
/// code, locals all null, no operands.
pub open spec fn entry_frame(class: Class, code: AttributeCode) -> FrameView {
    FrameView {
        class_name: class.this_class@,
        pc: 0,
        code: code.code@,
        max_stack: code.max_stack as int,
        max_locals: code.max_locals as int,
        locals: Seq::new(code.max_locals as nat, |i: int| None::<u32>),
        operands: Seq::empty(),
    }
}

/// The frames after invoking `method_name` of the class `class_name` on top
/// of `fs`, or why that fails.
pub open spec fn invoke_result(
    reg: Seq<Class>,
    fs: Seq<FrameView>,
    class_name: Seq<char>,
    method_name: Seq<char>,
) -> Result<Seq<FrameView>, JvmError> {
    match lookup(reg, binary_name(class_name)) {
        None => Err(JvmError::ClassNotFound),
        Some(ci) => match method_code_from(reg[ci].methods@, method_name, 0) {
            None => Err(JvmError::MethodNotFound),
            Some((mi, aj)) => if fs.len() >= MAX_FRAMES {
                Err(JvmError::CallStackOverflow)
            } else {
                match reg[ci].methods@[mi].attributes@[aj] {
                    Attribute::Code(c) => Ok(fs.push(entry_frame(reg[ci], c))),
                    _ => Err(JvmError::MethodNotFound),
                }
            },
        },
    }
}

/// `f` with `v` pushed onto its operand stack, unless the stack is full.
pub open spec fn push_operand(f: FrameView, v: Option<u32>) -> Result<FrameView, JvmError> {
    if f.operands.len() >= f.max_stack {
        Err(JvmError::OperandStackOverflow)
    } else {
        Ok(FrameView { operands: f.operands.push(v), ..f })
    }
}

/// The frames after `f` pushes `v`, over the frames `below`.
pub open spec fn pushed(below: Seq<FrameView>, f: FrameView, v: Option<u32>) -> Result<
    Seq<FrameView>,
    JvmError,
> {
    match push_operand(f, v) {
        Ok(g) => Ok(below.push(g)),
        Err(e) => Err(e),
    }
}

/// The frames after executing `ins` in the frame `f` (its program counter
/// already past the instruction) over the frames `below`.
pub open spec fn execute_result(
    reg: Seq<Class>,
    below: Seq<FrameView>,
    f: FrameView,
    ins: Instruction,
) -> Result<Seq<FrameView>, JvmError> {
    match ins {
        Instruction::Nop | Instruction::Return | Instruction::Ireturn => Ok(below.push(f)),
        Instruction::AconstNull => pushed(below, f, None),
        Instruction::Iconst(v) => pushed(below, f, Some(v as u32)),
        Instruction::Bipush(b) => pushed(below, f, Some(b as i32 as u32)),
        Instruction::Sipush(v) => pushed(below, f, Some(v as i32 as u32)),
        Instruction::Ldc(i) => match lookup(reg, f.class_name) {
            None => Err(JvmError::ClassNotFound),
            Some(ci) => match ldc_value(reg[ci].constant_pool@, i as int) {
                Ok(v) => pushed(below, f, Some(v)),
                Err(e) => Err(e),
            },
        },
        Instruction::Invokestatic(i) => match lookup(reg, f.class_name) {
            None => Err(JvmError::ClassNotFound),
            Some(ci) => match methodref_target(reg[ci].constant_pool@, i as int) {
                Ok((cn, mn)) => invoke_result(reg, below.push(f), cn, mn),
                Err(e) => Err(e),
            },
        },
    }
}

/// One turn of the run loop on the frames `fs` (top last): the frames after
/// it, the opcode it executed, and the error it ended in. A top frame whose
/// program counter has reached the end of its code is popped; otherwise one
/// instruction runs. After a failed decode the frames are as they were;
/// after a failed execution the top frame stays, past the instruction.
pub open spec fn step(reg: Seq<Class>, fs: Seq<FrameView>) -> (Seq<FrameView>, Option<u8>, Option<
    JvmError,
>) {
    let top = fs.last();
    let below = fs.drop_last();
    if top.pc >= top.code.len() {
        (below, None, None)
    } else {
        match decode_at(top.code, top.pc) {
            Err(e) => (fs, None, Some(e)),
            Ok((ins, n)) => {
                let f = FrameView { pc: top.pc + n, ..top };
                match execute_result(reg, below, f, ins) {
                    Ok(next) => (next, Some(top.code[top.pc]), None),
                    Err(e) => (below.push(f), None, Some(e)),
                }
            },
        }
    }
}

/// The value that `ldc` pushes for the entry at `index`.
fn ldc_lookup(pool: &Vec<Constant>, index: u8) -> (r: Result<u32, JvmError>)
    ensures
        r == ldc_value(pool@, index as int),
{
    match pool_get(pool, index as usize)? {
        Constant::Integer(x) => Ok(x.bytes as u32),
        _ => Err(JvmError::WrongConstantKind { index: index as usize }),
    }
}

/// The class and method names of the Methodref at `index`.
fn methodref_lookup(pool: &Vec<Constant>, index: u16) -> (r: Result<(String, String), JvmError>)
    ensures
        match (r, methodref_target(pool@, index as int)) {
            (Ok((c, m)), Ok((c2, m2))) => c@ == c2 && m@ == m2,
            (Err(e), Err(e2)) => e == e2,
            _ => false,
        },
{
    match pool_get(pool, index as usize)? {
        Constant::Methodref(m) => {
            let class_name = Constant::read_class_name(pool, m.class_index)?;
            match pool_get(pool, m.name_and_type_index as usize)? {
                Constant::NameAndType(nt) => {
                    let name = Constant::read_utf8_data(pool, nt.name_index)?;
                    let _descriptor = Constant::read_utf8_data(pool, nt.descriptor_index)?;
                    Ok((class_name, name))
                },
                _ => Err(JvmError::WrongConstantKind { index: m.name_and_type_index as usize }),
            }
        },
        _ => Err(JvmError::WrongConstantKind { index: index as usize }),
    }
}

/// The first method named `name` with a Code attribute, and that
/// attribute's index.
fn find_method_code(methods: &Vec<Method>, name: &String) -> (r: Option<(usize, usize)>)
    ensures
        match (r, method_code_from(methods@, name@, 0)) {
            (Some((i, j)), Some((i2, j2))) => i == i2 && j == j2,
            (None, None) => true,
            _ => false,
        },
{
    let mut i: usize = 0;
    while i < methods.len()
        invariant
            i <= methods@.len(),
            method_code_from(methods@, name@, 0) == method_code_from(methods@, name@, i as int),
        decreases methods@.len() - i,
    {
        if methods[i].name == *name {
            let attrs = &methods[i].attributes;
            let mut j: usize = 0;
            while j < attrs.len()
                invariant
                    i < methods@.len(),
                    methods@[i as int].name@ == name@,
                    attrs@ == methods@[i as int].attributes@,
                    method_code_from(methods@, name@, 0) == method_code_from(
                        methods@,
                        name@,
                        i as int,
                    ),
                    j <= attrs@.len(),
                    first_code_from(attrs@, 0) == first_code_from(attrs@, j as int),
                decreases attrs@.len() - j,
            {
                if let Attribute::Code(_) = &attrs[j] {
                    return Some((i, j));
                }
                j = j + 1;
            }
        }
        i = i + 1;
    }
    None
}

/// Every frame's program counter lies within its code: `0 <= pc <= length`.
pub open spec fn pcs_in_code(fs: Seq<FrameView>) -> bool {
    forall|i: int| 0 <= i < fs.len() ==> 0 <= #[trigger] fs[i].pc <= fs[i].code.len()
}

/// The engine's invariant on its frames: program counters within their
/// code, code that fits in memory, and a stack no deeper than `MAX_FRAMES`.
pub open spec fn frames_wf(fs: Seq<FrameView>) -> bool {
    &&& pcs_in_code(fs)
    &&& fs.len() <= MAX_FRAMES
    &&& forall|i: int| 0 <= i < fs.len() ==> #[trigger] fs[i].code.len() <= usize::MAX
}

/// How the frames look after a successful execution in the frame `f` over
/// `below`: `f` (its code and counter kept) on top, or `f` under one new
/// frame at the start of its code.
proof fn lemma_execute_shape(reg: Seq<Class>, below: Seq<FrameView>, f: FrameView, ins: Instruction)
    requires
        execute_result(reg, below, f, ins) is Ok,
    ensures
        ({
            let next = execute_result(reg, below, f, ins).unwrap();
            &&& next.len() == below.len() + 1 || next.len() == below.len() + 2
            &&& next.subrange(0, below.len() as int) == below
            &&& next[below.len() as int].code == f.code
            &&& next[below.len() as int].pc == f.pc
            &&& next.len() == below.len() + 2 ==> next[below.len() + 1int].pc == 0 && next.len()
                <= MAX_FRAMES
        }),
{
    let next = execute_result(reg, below, f, ins).unwrap();
    assert(next.subrange(0, below.len() as int) =~= below);
}

/// One turn of the run loop keeps every program counter within its code,
/// and a counter that reaches the end of its code ends that frame without
/// an error.
pub proof fn lemma_step_keeps_pcs_in_code(reg: Seq<Class>, fs: Seq<FrameView>)
    requires
        fs.len() > 0,
        pcs_in_code(fs),
    ensures
        pcs_in_code(step(reg, fs).0),
        fs.last().pc == fs.last().code.len() ==> step(reg, fs) == (
            fs.drop_last(),
            None::<u8>,
            None::<JvmError>,
        ),
{
    let top = fs.last();
    let below = fs.drop_last();
    let next = step(reg, fs).0;
    if top.pc < top.code.len() {
        if let Ok((ins, n)) = decode_at(top.code, top.pc) {
            let f = FrameView { pc: top.pc + n, ..top };
            assert(f.pc <= f.code.len());
            if execute_result(reg, below, f, ins) is Ok {
                lemma_execute_shape(reg, below, f, ins);
                assert forall|i: int| 0 <= i < next.len() implies 0 <= #[trigger] next[i].pc
                    <= next[i].code.len() by {
                    if i < below.len() {
                        assert(next[i] == next.subrange(0, below.len() as int)[i]);
                    }
                }
            } else {
                assert forall|i: int| 0 <= i < next.len() implies 0 <= #[trigger] next[i].pc
                    <= next[i].code.len() by {
                    if i < below.len() {
                        assert(next[i] == fs[i]);
                    }
                }
            }
        }
    }
}

/// The weight of the frame at depth `i` in the termination measure.
pub open spec fn weight(i: int) -> int
    decreases MAX_FRAMES - i,
{
    if i >= MAX_FRAMES - 1 {
        1
    } else {
        (usize::MAX + 2) * weight(i + 1)
    }
}

proof fn lemma_weight_positive(i: int)
    ensures
        weight(i) > 0,
    decreases MAX_FRAMES - i,
{
    if i < MAX_FRAMES - 1 {
        lemma_weight_positive(i + 1);
        assert(weight(i) > 0) by (nonlinear_arith)
            requires
                weight(i) == (usize::MAX + 2) * weight(i + 1),
                weight(i + 1) > 0,
        ;
    }
}

/// A measure that every turn of the run loop lowers: each frame counts the
/// code it has left, weighted so that a deeper frame never outweighs one
/// step of a shallower one.
pub open spec fn potential(fs: Seq<FrameView>) -> int
    decreases fs.len(),
{
    if fs.len() == 0 {
        0
    } else {
        potential(fs.drop_last()) + (fs.last().code.len() - fs.last().pc + 1) * weight(
            fs.len() - 1,
        )
    }
}

proof fn lemma_potential_nonneg(fs: Seq<FrameView>)
    requires
        pcs_in_code(fs),
    ensures
        potential(fs) >= 0,
    decreases fs.len(),
{
    if fs.len() > 0 {
        assert(pcs_in_code(fs.drop_last())) by {
            assert forall|i: int| 0 <= i < fs.drop_last().len() implies 0
                <= #[trigger] fs.drop_last()[i].pc <= fs.drop_last()[i].code.len() by {
                assert(fs.drop_last()[i] == fs[i]);
            }
        }
        lemma_potential_nonneg(fs.drop_last());
        lemma_weight_positive(fs.len() - 1);
        let r = fs.last().code.len() - fs.last().pc + 1;
        assert(fs.last() == fs[fs.len() - 1]);
        assert(r * weight(fs.len() - 1) >= 0) by (nonlinear_arith)
            requires
                r >= 1,
                weight(fs.len() - 1) > 0,
        ;
    }
}

/// A turn of the run loop that ends in no error lowers the measure.
proof fn lemma_step_decreases(reg: Seq<Class>, fs: Seq<FrameView>)
    requires
        fs.len() > 0,
        frames_wf(fs),
        frames_wf(step(reg, fs).0),
        step(reg, fs).2 is None,
    ensures
        potential(step(reg, fs).0) < potential(fs),
{
    let top = fs.last();
    let below = fs.drop_last();
    let k = below.len() as int;
    let next = step(reg, fs).0;
    let w = weight(k);
    lemma_weight_positive(k);
    assert(top == fs[k]);
    if top.pc >= top.code.len() {
        assert(potential(fs) == potential(below) + (top.code.len() - top.pc + 1) * w);
        assert((top.code.len() - top.pc + 1) * w > 0) by (nonlinear_arith)
            requires
                top.code.len() - top.pc + 1 >= 1,
                w > 0,
        ;
    } else {
        let (ins, n) = decode_at(top.code, top.pc).unwrap();
        let f = FrameView { pc: top.pc + n, ..top };
        lemma_execute_shape(reg, below, f, ins);
        let rem = top.code.len() - top.pc;
        let rem_f = f.code.len() - f.pc;
        assert(rem_f + 1 <= rem);
        assert((rem_f + 1) * w <= rem * w) by (nonlinear_arith)
            requires
                rem_f + 1 <= rem,
                w > 0,
        ;
        let first = next.subrange(0, k + 1);
        assert(first.drop_last() =~= below);
        assert(first.last() == next[k]);
        assert(potential(first) == potential(below) + (rem_f + 1) * w);
        if next.len() == k + 1 {
            assert(next =~= first);
        } else {
            assert(next.drop_last() =~= first);
            let e = next.last();
            assert(e == next[k + 1]);
            assert(e.code.len() <= usize::MAX);
            lemma_weight_positive(k + 1);
            assert(w == (usize::MAX + 2) * weight(k + 1));
            assert((e.code.len() - e.pc + 1) * weight(k + 1) < w) by (nonlinear_arith)
                requires
                    e.pc == 0,
                    e.code.len() <= usize::MAX,
                    weight(k + 1) > 0,
                    w == (usize::MAX + 2) * weight(k + 1),
            ;
        }
        assert(potential(fs) == potential(below) + (rem + 1) * w);
        assert((rem + 1) * w == rem * w + w) by (nonlinear_arith);
    }
}

/// Up to `n` turns of the run loop from the frames `fs`: the frames after
/// them, the opcodes executed in order, and the error that stopped the run.
/// The run stops early when the call stack is empty or an error occurs.
pub open spec fn run_n(reg: Seq<Class>, fs: Seq<FrameView>, n: nat) -> (Seq<FrameView>, Seq<u8>, Option<
    JvmError,
>)
    decreases n,
{
    if n == 0 || fs.len() == 0 {
        (fs, Seq::empty(), None)
    } else {
        let (next, op, err) = step(reg, fs);
        let t = match op {
            Some(o) => seq![o],
            None => Seq::empty(),
        };
        match err {
            Some(e) => (next, t, Some(e)),
            None => {
                let (fin, rest, e2) = run_n(reg, next, (n - 1) as nat);
                (fin, t + rest, e2)
            },
        }
    }
}

/// Whether a run has ended: its call stack is empty or it failed.
pub open spec fn halted(r: (Seq<FrameView>, Seq<u8>, Option<JvmError>)) -> bool {
    r.0.len() == 0 || r.2 is Some
}

proof fn lemma_run_n_extend(reg: Seq<Class>, fs: Seq<FrameView>, k: nat)
    requires
        !halted(run_n(reg, fs, k)),
    ensures
        ({
            let (cur, tr, _) = run_n(reg, fs, k);
            let (next, op, err) = step(reg, cur);
            let t = match op {
                Some(o) => seq![o],
                None => Seq::empty(),
            };
            run_n(reg, fs, k + 1) == (next, tr + t, err)
        }),
    decreases k,
{
    if k == 0 {
        let (next, op, err) = step(reg, fs);
        let t = match op {
            Some(o) => seq![o],
            None => Seq::<u8>::empty(),
        };
        assert(run_n(reg, next, 0).1 =~= Seq::<u8>::empty());
        assert(t + Seq::<u8>::empty() =~= t);
        assert(Seq::<u8>::empty() + t =~= t);
    } else {
        let (next, op, err) = step(reg, fs);
        let t = match op {
            Some(o) => seq![o],
            None => Seq::<u8>::empty(),
        };
        lemma_run_n_extend(reg, next, (k - 1) as nat);
        let (_, rest, _) = run_n(reg, next, (k - 1) as nat);
        let (cur, _, _) = run_n(reg, fs, k);
        let (_, op2, _) = step(reg, cur);
        let t2 = match op2 {
            Some(o) => seq![o],
            None => Seq::<u8>::empty(),
        };
        assert(t + (rest + t2) =~= (t + rest) + t2);
    }
}

proof fn lemma_run_n_stable(reg: Seq<Class>, fs: Seq<FrameView>, n: nat, m: nat)
    requires
        halted(run_n(reg, fs, n)),
        n <= m,
    ensures
        run_n(reg, fs, m) == run_n(reg, fs, n),
    decreases n,
{
    if n > 0 && fs.len() > 0 {
        let (next, op, err) = step(reg, fs);
        if err is None {
            lemma_run_n_stable(reg, next, (n - 1) as nat, (m - 1) as nat);
        }
    }
}

/// Runs are deterministic: two runs from the same frames over the same
/// registry that have both ended went through the same opcodes and ended in
/// the same frames and the same error.
pub proof fn lemma_run_deterministic(reg: Seq<Class>, fs: Seq<FrameView>, n1: nat, n2: nat)
    requires
        halted(run_n(reg, fs, n1)),
        halted(run_n(reg, fs, n2)),
    ensures
        run_n(reg, fs, n1) == run_n(reg, fs, n2),
{
    if n1 <= n2 {
        lemma_run_n_stable(reg, fs, n1, n2);
    } else {
        lemma_run_n_stable(reg, fs, n2, n1);
    }
}

/// The view of a stack of frames.
pub open spec fn frames_of(stacks: Seq<Frame>) -> Seq<FrameView> {
    stacks.map_values(|f: Frame| f@)
}

/// A fresh frame over the method body `c` of `class`.
fn new_frame(class: &Class, c: &AttributeCode) -> (r: Frame)
    ensures
        r@ == entry_frame(*class, *c),
        r.code@.len() <= usize::MAX,
{
    let code = c.code.clone();
    assert(code@ =~= c.code@);
    assert(code@.len() <= usize::MAX) by {
        assert(code.len() == code@.len());
    }
    let mut local_variables: Vec<Option<u32>> = Vec::new();
    let mut i: u16 = 0;
    while i < c.max_locals
        invariant
            i <= c.max_locals,
            local_variables@ == Seq::new(i as nat, |j: int| None::<u32>),
        decreases c.max_locals - i,
    {
        local_variables.push(None);
        i = i + 1;
        assert(local_variables@ =~= Seq::new(i as nat, |j: int| None::<u32>));
    }
    Frame {
        class_name: class.this_class.clone(),
        pc: 0,
        code,
        max_stack: c.max_stack,
        max_locals: c.max_locals,
        local_variables,
        operand_stack: Vec::new(),
    }
}

/// What a run ended with: the opcodes it executed, in order, and its error.
#[derive(Debug)]
pub struct RunOutcome {
    pub trace: Vec<u8>,
    pub result: Result<(), JvmError>,
}

/// The error of a run's result, if any.
pub open spec fn error_of(r: Result<(), JvmError>) -> Option<JvmError> {
    match r {
        Ok(_) => None,
        Err(e) => Some(e),
    }
}

/// A guest thread: a call stack of frames (top last) over a read-only class
/// registry.
#[derive(Debug)]
pub struct Thread {
    pub class_map: ClassLoader,
    pub stacks: Vec<Frame>,
}

impl Thread {
    pub open spec fn frames(&self) -> Seq<FrameView> {
        frames_of(self.stacks@)
    }

    pub open spec fn registry(&self) -> Seq<Class> {
        self.class_map.class_map@
    }

    pub open spec fn wf(&self) -> bool {
        frames_wf(self.frames())
    }

    /// A thread with an empty call stack over `class_map`.
    pub fn new(class_map: ClassLoader) -> (r: Thread)
        ensures
            r.wf(),
            r.frames().len() == 0,
            r.registry() == class_map.class_map@,
    {
        let r = Thread { class_map, stacks: Vec::new() };
        assert(r.frames() =~= Seq::<FrameView>::empty());
        r
    }

    /// Pushes a frame for `method_name` of the class `class_name` (package
    /// separators may be `.` or `/`): the first method of that name with a
    /// Code attribute, its first Code attribute. On failure nothing changes.
    pub fn invoke_from_method_name(&mut self, class_name: String, method_name: String) -> (r:
        Result<(), JvmError>)
        requires
            old(self).wf(),
        ensures
            final(self).wf(),
            final(self).registry() == old(self).registry(),
            match invoke_result(old(self).registry(), old(self).frames(), class_name@, method_name@) {
                Ok(fs) => r is Ok && final(self).frames() == fs,
                Err(e) => r == Err::<(), JvmError>(e) && final(self).frames() == old(self).frames(),
            },
    {
        let key = dots_to_slashes(class_name.as_str());
        let class = match self.class_map.find_class(&key) {
            Some(c) => c,
            None => return Err(JvmError::ClassNotFound),
        };
        proof {
            lemma_lookup_found(self.registry(), key@);
        }
        let (mi, aj) = match find_method_code(&class.methods, &method_name) {
            Some(p) => p,
            None => return Err(JvmError::MethodNotFound),
        };
        proof {
            lemma_method_code_from(class.methods@, method_name@, 0);
        }
        if self.stacks.len() >= MAX_FRAMES {
            return Err(JvmError::CallStackOverflow);
        }
        match &class.methods[mi].attributes[aj] {
            Attribute::Code(c) => {
                let frame = new_frame(class, c);
                let ghost before = self.stacks@;
                self.stacks.push(frame);
                assert(self.frames() =~= frames_of(before).push(frame@));
                Ok(())
            },
            _ => Err(JvmError::MethodNotFound),
        }
    }

    /// Removes and returns the top frame.
    pub fn pop_stacks(&mut self) -> (r: Frame)
        requires
            old(self).wf(),
            old(self).stacks@.len() > 0,
        ensures
            final(self).wf(),
            final(self).registry() == old(self).registry(),
            r@ == old(self).frames().last(),
            final(self).frames() == old(self).frames().drop_last(),
    {
        let r = self.stacks.pop().unwrap();
        assert(self.frames() =~= old(self).frames().drop_last());
        r
    }

    /// Puts `frame` back on top after pushing `v` onto its operand stack,
    /// or after failing to because the stack is full.
    fn push_and_keep(&mut self, frame: Frame, v: Option<u32>, opcode: u8) -> (r: Result<u8, JvmError>)
        ensures
            final(self).registry() == old(self).registry(),
            match push_operand(frame@, v) {
                Ok(g) => r == Ok::<u8, JvmError>(opcode) && final(self).frames() == old(self).frames().push(g),
                Err(e) => r == Err::<u8, JvmError>(e) && final(self).frames() == old(self).frames().push(frame@),
            },
    {
        let mut frame = frame;
        let ghost before = self.stacks@;
        if frame.operand_stack.len() >= frame.max_stack as usize {
            self.stacks.push(frame);
            assert(self.frames() =~= frames_of(before).push(frame@));
            return Err(JvmError::OperandStackOverflow);
        }
        frame.operand_stack.push(v);
        self.stacks.push(frame);
        assert(self.frames() =~= frames_of(before).push(frame@));
        Ok(opcode)
    }

    /// Executes one instruction of the top frame, whose program counter must
    /// lie before the end of its code. Returns the opcode executed.
    pub fn exec(&mut self) -> (r: Result<u8, JvmError>)
        requires
            old(self).wf(),
            old(self).stacks@.len() > 0,
            old(self).frames().last().pc < old(self).frames().last().code.len(),
        ensures
            final(self).wf(),
            final(self).registry() == old(self).registry(),
            ({
                let (next, op, err) = step(old(self).registry(), old(self).frames());
                &&& final(self).frames() == next
                &&& r matches Ok(o) ==> op == Some(o) && err is None
                &&& r matches Err(e) ==> op is None && err == Some(e)
            }),
    {
        let ghost fs = self.frames();
        let mut frame = self.stacks.pop().unwrap();
        assert(self.frames() =~= fs.drop_last());
        assert(frame@ == fs.last());
        let (ins, n) = match Instruction::decode(&frame.code, frame.pc) {
            Ok(x) => x,
            Err(e) => {
                self.stacks.push(frame);
                assert(self.frames() =~= fs);
                return Err(e);
            },
        };
        let opcode = frame.code[frame.pc];
        frame.pc = frame.pc + n;
        assert(frame@ == (FrameView { pc: fs.last().pc + n, ..fs.last() }));
        let r = match ins {
            Instruction::Nop | Instruction::Return | Instruction::Ireturn => {
                let ghost b = self.stacks@;
                self.stacks.push(frame);
                assert(self.frames() =~= frames_of(b).push(frame@));
                Ok(opcode)
            },
            Instruction::AconstNull => self.push_and_keep(frame, None, opcode),
            Instruction::Iconst(v) => self.push_and_keep(frame, Some(v as u32), opcode),
            Instruction::Bipush(b) => self.push_and_keep(frame, Some(b as i32 as u32), opcode),
            Instruction::Sipush(v) => self.push_and_keep(frame, Some(v as i32 as u32), opcode),
            Instruction::Ldc(i) => {
                let value = match self.class_map.find_class(&frame.class_name) {
                    None => Err(JvmError::ClassNotFound),
                    Some(c) => ldc_lookup(&c.constant_pool, i),
                };
                match value {
                    Ok(v) => self.push_and_keep(frame, Some(v), opcode),
                    Err(e) => {
                        let ghost b = self.stacks@;
                        self.stacks.push(frame);
                        assert(self.frames() =~= frames_of(b).push(frame@));
                        Err(e)
                    },
                }
            },
            Instruction::Invokestatic(i) => {
                let target = match self.class_map.find_class(&frame.class_name) {
                    None => Err(JvmError::ClassNotFound),
                    Some(c) => methodref_lookup(&c.constant_pool, i),
                };
                let ghost b = self.stacks@;
                self.stacks.push(frame);
                assert(self.frames() =~= frames_of(b).push(frame@));
                match target {
                    Ok((class_name, method_name)) => {
                        match self.invoke_from_method_name(class_name, method_name) {
                            Ok(()) => Ok(opcode),
                            Err(e) => Err(e),
                        }
                    },
                    Err(e) => Err(e),
                }
            },
        };
        r
    }

    /// Runs until the call stack is empty: a top frame whose program counter
    /// has reached the end of its code is popped (an implicit return);
    /// otherwise its next instruction executes. The first error ends the run.
    pub fn run(&mut self) -> (r: RunOutcome)
        requires
            old(self).wf(),
        ensures
            final(self).wf(),
            final(self).registry() == old(self).registry(),
            exists|n: nat|
                run_n(old(self).registry(), old(self).frames(), n) == (
                    final(self).frames(),
                    r.trace@,
                    error_of(r.result),
                ) && #[trigger] halted(run_n(old(self).registry(), old(self).frames(), n)),
    {
        let ghost fs0 = self.frames();
        let ghost reg = self.registry();
        let mut trace: Vec<u8> = Vec::new();
        let ghost mut k: nat = 0;
        proof {
            assert(trace@ =~= Seq::<u8>::empty());
        }
        while self.stacks.len() != 0
            invariant
                self.wf(),
                self.registry() == reg,
                fs0 == old(self).frames(),
                reg == old(self).registry(),
                run_n(reg, fs0, k) == (self.frames(), trace@, None::<JvmError>),
            decreases potential(self.frames()),
        {
            let ghost cur = self.frames();
            proof {
                lemma_potential_nonneg(cur);
                lemma_run_n_extend(reg, fs0, k);
            }
            let top = self.stacks.len() - 1;
            assert(cur[top as int] == self.stacks@[top as int]@);
            if self.stacks[top].pc == self.stacks[top].code.len() {
                self.pop_stacks();
                assert(trace@ + Seq::<u8>::empty() =~= trace@);
            } else {
                let ghost before = trace@;
                match self.exec() {
                    Ok(o) => {
                        trace.push(o);
                        assert(trace@ =~= before + seq![o]);
                    },
                    Err(e) => {
                        assert(trace@ + Seq::<u8>::empty() =~= trace@);
                        assert(halted(run_n(reg, fs0, k + 1)));
                        return RunOutcome { trace, result: Err(e) };
                    },
                }
            }
            proof {
                lemma_step_decreases(reg, cur);
                lemma_potential_nonneg(self.frames());
                k = k + 1;
            }
        }
        assert(halted(run_n(reg, fs0, k)));
        RunOutcome { trace, result: Ok(()) }
    }

    /// The entry point: invokes `method_name` of the class `class_name` and
    /// runs until the call stack is empty or an error occurs. The supported
    /// opcodes allocate no objects, so `args` cannot be handed to the guest
    /// as an array and does not affect the run.
    pub fn invoke_and_run(&mut self, class_name: String, method_name: String, args: &Vec<String>) -> (r:
        RunOutcome)
        requires
            old(self).wf(),
        ensures
            final(self).wf(),
            final(self).registry() == old(self).registry(),
            match invoke_result(old(self).registry(), old(self).frames(), class_name@, method_name@) {
                Err(e) => r.trace@ == Seq::<u8>::empty() && r.result == Err::<(), JvmError>(e)
                    && final(self).frames() == old(self).frames(),
                Ok(fs) => exists|n: nat|
                    run_n(old(self).registry(), fs, n) == (
                        final(self).frames(),
                        r.trace@,
                        error_of(r.result),
                    ) && #[trigger] halted(run_n(old(self).registry(), fs, n)),
            },
    {
        match self.invoke_from_method_name(class_name, method_name) {
            Ok(()) => self.run(),
            Err(e) => {
                let trace: Vec<u8> = Vec::new();
                assert(trace@ =~= Seq::<u8>::empty());
                RunOutcome { trace, result: Err(e) }
            },
        }
    }
}

/// Invoking the same method of the same class against the same registry
/// twice, each time from an empty call stack, executes the same sequence of
/// opcodes through the same frames and ends the same way.
pub proof fn lemma_invoke_and_run_deterministic(
    reg: Seq<Class>,
    class_name: Seq<char>,
    method_name: Seq<char>,
    n1: nat,
    n2: nat,
)
    requires
        invoke_result(reg, Seq::empty(), class_name, method_name) is Ok,
        halted(run_n(reg, invoke_result(reg, Seq::empty(), class_name, method_name).unwrap(), n1)),
        halted(run_n(reg, invoke_result(reg, Seq::empty(), class_name, method_name).unwrap(), n2)),
    ensures
        run_n(reg, invoke_result(reg, Seq::empty(), class_name, method_name).unwrap(), n1) == run_n(
            reg,
            invoke_result(reg, Seq::empty(), class_name, method_name).unwrap(),
            n2,
        ),
{
    lemma_run_deterministic(
        reg,
        invoke_result(reg, Seq::empty(), class_name, method_name).unwrap(),
        n1,
        n2,
    );
}

} // verus!
