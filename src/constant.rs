use vstd::prelude::*;
use vstd::utf8::{decode_utf8, valid_utf8};

use crate::error::{ErrorKind, JvmError};
use crate::reader::{be_at, be_value, utf8_to_string, BytecodeReader};

verus! {

/// `v` written as `n` bytes, most significant first (the low `n` bytes of `v`).
pub open spec fn be_bytes(v: nat, n: nat) -> Seq<u8>
    decreases n,
{
    if n == 0 {
        Seq::empty()
    } else {
        be_bytes(v / 256, (n - 1) as nat).push((v % 256) as u8)
    }
}

/// Writing a big-endian number back gives the bytes it was read from.
pub proof fn lemma_be_bytes_of_value(s: Seq<u8>)
    ensures
        be_bytes(be_value(s), s.len()) == s,
    decreases s.len(),
{
    if s.len() > 0 {
        let init = s.drop_last();
        lemma_be_bytes_of_value(init);
        let v = be_value(init);
        vstd::arithmetic::div_mod::lemma_fundamental_div_mod_converse(
            be_value(s) as int,
            256,
            v as int,
            s.last() as int,
        );
        assert(be_bytes(be_value(s), s.len()) =~= init.push(s.last()));
        assert(init.push(s.last()) =~= s);
    }
}

/// The bytes `n` long at `p` in `d`, written back from the number they hold.
pub proof fn lemma_be_at_bytes(d: Seq<u8>, p: int, n: int)
    requires
        0 <= p,
        0 <= n,
        p + n <= d.len(),
    ensures
        be_bytes(be_at(d, p, n), n as nat) == d.subrange(p, p + n),
{
    lemma_be_bytes_of_value(d.subrange(p, p + n));
}

#[derive(Debug)]
pub struct ConstantUtf8 {
    /// The entry's text as stored: modified UTF-8, not checked at decode time.
    pub bytes: Vec<u8>,
}

#[derive(Debug)]
pub struct ConstantInteger {
    pub bytes: i32,
}

/// A single-precision value, kept as its IEEE-754 bit pattern.
#[derive(Debug)]
pub struct ConstantFloat {
    pub bytes: u32,
}

#[derive(Debug)]
pub struct ConstantLong {
    pub bytes: i64,
}

/// A double-precision value, kept as its IEEE-754 bit pattern.
#[derive(Debug)]
pub struct ConstantDouble {
    pub bytes: u64,
}

#[derive(Debug)]
pub struct ConstantClass {
    pub name_index: u16,
}

#[derive(Debug)]
pub struct ConstantString {
    pub string_index: u16,
}

#[derive(Debug)]
pub struct ConstantFieldref {
    pub class_index: u16,
    pub name_and_type_index: u16,
}

#[derive(Debug)]
pub struct ConstantMethodref {
    pub class_index: u16,
    pub name_and_type_index: u16,
}

#[derive(Debug)]
pub struct ConstantInterfaceMethodref {
    pub class_index: u16,
    pub name_and_type_index: u16,
}

#[derive(Debug)]
pub struct ConstantNameAndType {
    pub name_index: u16,
    pub descriptor_index: u16,
}

#[derive(Debug)]
pub struct ConstantMethodHandle {
    pub reference_kind: u8,
    pub reference_index: u16,
}

#[derive(Debug)]
pub struct ConstantMethodType {
    pub descriptor_index: u16,
}

#[derive(Debug)]
pub struct ConstantDynamic {
    pub bootstrap_method_attr_index: u16,
    pub name_and_type_index: u16,
}

#[derive(Debug)]
pub struct ConstantInvokeDynamic {
    pub bootstrap_method_attr_index: u16,
    pub name_and_type_index: u16,
}

#[derive(Debug)]
pub struct ConstantModule {
    pub name_index: u16,
}

#[derive(Debug)]
pub struct ConstantPackage {
    pub name_index: u16,
}

/// One entry of a class's constant pool.
#[derive(Debug)]
pub enum Constant {
    Utf8(ConstantUtf8),
    Integer(ConstantInteger),
    Float(ConstantFloat),
    Long(ConstantLong),
    Double(ConstantDouble),
    Class(ConstantClass),
    String(ConstantString),
    Fieldref(ConstantFieldref),
    Methodref(ConstantMethodref),
    InterfaceMethodref(ConstantInterfaceMethodref),
    NameAndType(ConstantNameAndType),
    MethodHandle(ConstantMethodHandle),
    MethodType(ConstantMethodType),
    Dynamic(ConstantDynamic),
    InvokeDynamic(ConstantInvokeDynamic),
    Module(ConstantModule),
    Package(ConstantPackage),
}

/// The tags that a constant-pool entry may carry.
pub open spec fn known_tag(t: u8) -> bool {
    t == 1 || (3 <= t <= 12) || (15 <= t <= 20)
}

/// How many bytes follow the tag of the entry at `p`, as the bytes declare it.
pub open spec fn payload_len(d: Seq<u8>, p: int) -> int {
    let t = d[p];
    if t == 1 {
        2 + be_at(d, p + 1, 2) as int
    } else if t == 3 || t == 4 || t == 9 || t == 10 || t == 11 || t == 12 || t == 17 || t == 18 {
        4
    } else if t == 5 || t == 6 {
        8
    } else if t == 15 {
        3
    } else {
        2
    }
}

/// Whether a whole entry can be read at `p`: a known tag, and every byte its
/// layout asks for present.
pub open spec fn constant_fits(d: Seq<u8>, p: int) -> bool {
    &&& 0 <= p < d.len()
    &&& known_tag(d[p])
    &&& (d[p] == 1 ==> p + 3 <= d.len())
    &&& p + 1 + payload_len(d, p) <= d.len()
}

/// `c` is what the bytes at `p` decode to: its tag is `d[p]`, and each field
/// is the big-endian value at its place in the tag's layout.
pub open spec fn constant_at(d: Seq<u8>, p: int, c: Constant) -> bool {
    &&& constant_fits(d, p)
    &&& d[p] == c.spec_tag()
    &&& match c {
        Constant::Utf8(x) => x.bytes@ == d.subrange(p + 3, p + 3 + be_at(d, p + 1, 2)),
        Constant::Integer(x) => x.bytes == be_at(d, p + 1, 4) as u32 as i32,
        Constant::Float(x) => x.bytes == be_at(d, p + 1, 4) as u32,
        Constant::Long(x) => x.bytes == be_at(d, p + 1, 8) as u64 as i64,
        Constant::Double(x) => x.bytes == be_at(d, p + 1, 8) as u64,
        Constant::Class(x) => x.name_index == be_at(d, p + 1, 2) as u16,
        Constant::String(x) => x.string_index == be_at(d, p + 1, 2) as u16,
        Constant::Fieldref(x) => x.class_index == be_at(d, p + 1, 2) as u16
            && x.name_and_type_index == be_at(d, p + 3, 2) as u16,
        Constant::Methodref(x) => x.class_index == be_at(d, p + 1, 2) as u16
            && x.name_and_type_index == be_at(d, p + 3, 2) as u16,
        Constant::InterfaceMethodref(x) => x.class_index == be_at(d, p + 1, 2) as u16
            && x.name_and_type_index == be_at(d, p + 3, 2) as u16,
        Constant::NameAndType(x) => x.name_index == be_at(d, p + 1, 2) as u16
            && x.descriptor_index == be_at(d, p + 3, 2) as u16,
        Constant::MethodHandle(x) => x.reference_kind == d[p + 1]
            && x.reference_index == be_at(d, p + 2, 2) as u16,
        Constant::MethodType(x) => x.descriptor_index == be_at(d, p + 1, 2) as u16,
        Constant::Dynamic(x) => x.bootstrap_method_attr_index == be_at(d, p + 1, 2) as u16
            && x.name_and_type_index == be_at(d, p + 3, 2) as u16,
        Constant::InvokeDynamic(x) => x.bootstrap_method_attr_index == be_at(d, p + 1, 2) as u16
            && x.name_and_type_index == be_at(d, p + 3, 2) as u16,
        Constant::Module(x) => x.name_index == be_at(d, p + 1, 2) as u16,
        Constant::Package(x) => x.name_index == be_at(d, p + 1, 2) as u16,
    }
}

impl Constant {
    pub open spec fn spec_tag(&self) -> u8 {
        match self {
            Constant::Utf8(_) => 1,
            Constant::Integer(_) => 3,
            Constant::Float(_) => 4,
            Constant::Long(_) => 5,
            Constant::Double(_) => 6,
            Constant::Class(_) => 7,
            Constant::String(_) => 8,
            Constant::Fieldref(_) => 9,
            Constant::Methodref(_) => 10,
            Constant::InterfaceMethodref(_) => 11,
            Constant::NameAndType(_) => 12,
            Constant::MethodHandle(_) => 15,
            Constant::MethodType(_) => 16,
            Constant::Dynamic(_) => 17,
            Constant::InvokeDynamic(_) => 18,
            Constant::Module(_) => 19,
            Constant::Package(_) => 20,
        }
    }

    /// An entry that can be written back: a text of at most 65535 bytes.
    pub open spec fn wf(&self) -> bool {
        match self {
            Constant::Utf8(x) => x.bytes@.len() < 0x10000,
            _ => true,
        }
    }

    /// The bytes that follow the tag when the entry is written.
    pub open spec fn spec_payload(&self) -> Seq<u8> {
        match self {
            Constant::Utf8(x) => be_bytes(x.bytes@.len(), 2) + x.bytes@,
            Constant::Integer(x) => be_bytes(x.bytes as u32 as nat, 4),
            Constant::Float(x) => be_bytes(x.bytes as nat, 4),
            Constant::Long(x) => be_bytes(x.bytes as u64 as nat, 8),
            Constant::Double(x) => be_bytes(x.bytes as nat, 8),
            Constant::Class(x) => be_bytes(x.name_index as nat, 2),
            Constant::String(x) => be_bytes(x.string_index as nat, 2),
            Constant::Fieldref(x) => be_bytes(x.class_index as nat, 2) + be_bytes(
                x.name_and_type_index as nat,
                2,
            ),
            Constant::Methodref(x) => be_bytes(x.class_index as nat, 2) + be_bytes(
                x.name_and_type_index as nat,
                2,
            ),
            Constant::InterfaceMethodref(x) => be_bytes(x.class_index as nat, 2) + be_bytes(
                x.name_and_type_index as nat,
                2,
            ),
            Constant::NameAndType(x) => be_bytes(x.name_index as nat, 2) + be_bytes(
                x.descriptor_index as nat,
                2,
            ),
            Constant::MethodHandle(x) => seq![x.reference_kind] + be_bytes(
                x.reference_index as nat,
                2,
            ),
            Constant::MethodType(x) => be_bytes(x.descriptor_index as nat, 2),
            Constant::Dynamic(x) => be_bytes(x.bootstrap_method_attr_index as nat, 2) + be_bytes(
                x.name_and_type_index as nat,
                2,
            ),
            Constant::InvokeDynamic(x) => be_bytes(x.bootstrap_method_attr_index as nat, 2)
                + be_bytes(x.name_and_type_index as nat, 2),
            Constant::Module(x) => be_bytes(x.name_index as nat, 2),
            Constant::Package(x) => be_bytes(x.name_index as nat, 2),
        }
    }

    /// The entry as it stands in a class file: its tag, then its payload.
    pub open spec fn spec_bytes(&self) -> Seq<u8> {
        seq![self.spec_tag()] + self.spec_payload()
    }
}

proof fn lemma_be_at_fits(d: Seq<u8>, p: int, n: int)
    requires
        0 <= p,
        0 <= n <= 8,
        p + n <= d.len(),
    ensures
        n == 2 ==> be_at(d, p, n) < 0x10000,
        n == 4 ==> be_at(d, p, n) < 0x1_0000_0000,
        n == 8 ==> be_at(d, p, n) < 0x1_0000_0000_0000_0000,
        be_bytes(be_at(d, p, n), n as nat) == d.subrange(p, p + n),
{
    crate::reader::lemma_be_value_bound(d.subrange(p, p + n));
    reveal_with_fuel(crate::reader::pow256, 9);
    lemma_be_at_bytes(d, p, n);
}

proof fn lemma_i32_bits(v: u32)
    ensures
        (v as i32) as u32 == v,
{
    assert((v as i32) as u32 == v) by (bit_vector);
}

proof fn lemma_i64_bits(v: u64)
    ensures
        (v as i64) as u64 == v,
{
    assert((v as i64) as u64 == v) by (bit_vector);
}

/// Decode-then-encode gives back the bytes: an entry decoded at `p` writes
/// out as exactly the bytes it was read from.
pub proof fn lemma_constant_round_trip(d: Seq<u8>, p: int, c: Constant)
    requires
        constant_at(d, p, c),
    ensures
        c.wf(),
        c.spec_bytes() == d.subrange(p, p + 1 + payload_len(d, p)),
        c.spec_bytes().len() == 1 + payload_len(d, p),
{
    let t = d[p];
    let end = p + 1 + payload_len(d, p);
    assert(d.subrange(p, p + 1) =~= seq![t]);
    if t == 1 {
        lemma_be_at_fits(d, p + 1, 2);
        let n = be_at(d, p + 1, 2);
        assert(d.subrange(p, end) =~= d.subrange(p, p + 1) + d.subrange(p + 1, p + 3)
            + d.subrange(p + 3, end));
    } else if t == 3 || t == 4 {
        lemma_be_at_fits(d, p + 1, 4);
        lemma_i32_bits(be_at(d, p + 1, 4) as u32);
        assert(d.subrange(p, end) =~= d.subrange(p, p + 1) + d.subrange(p + 1, end));
    } else if t == 5 || t == 6 {
        lemma_be_at_fits(d, p + 1, 8);
        lemma_i64_bits(be_at(d, p + 1, 8) as u64);
        assert(d.subrange(p, end) =~= d.subrange(p, p + 1) + d.subrange(p + 1, end));
    } else if t == 15 {
        lemma_be_at_fits(d, p + 2, 2);
        assert(d.subrange(p + 1, p + 2) =~= seq![d[p + 1]]);
        assert(d.subrange(p, end) =~= d.subrange(p, p + 1) + d.subrange(p + 1, p + 2)
            + d.subrange(p + 2, end));
    } else if t == 9 || t == 10 || t == 11 || t == 12 || t == 17 || t == 18 {
        lemma_be_at_fits(d, p + 1, 2);
        lemma_be_at_fits(d, p + 3, 2);
        assert(d.subrange(p, end) =~= d.subrange(p, p + 1) + d.subrange(p + 1, p + 3)
            + d.subrange(p + 3, end));
    } else {
        lemma_be_at_fits(d, p + 1, 2);
        assert(d.subrange(p, end) =~= d.subrange(p, p + 1) + d.subrange(p + 1, end));
    }
}

/// The error that decoding an entry at `p` ends in when it cannot be read:
/// the tag byte missing, an unknown tag, or the first field of the tag's
/// layout that runs past the end.
pub open spec fn constant_error(d: Seq<u8>, p: int) -> JvmError {
    if p >= d.len() {
        JvmError::OutOfBounds { offset: p as usize, wanted: 1 }
    } else if !known_tag(d[p]) {
        JvmError::UnknownConstantTag { tag: d[p] }
    } else {
        let t = d[p];
        if t == 1 {
            if p + 3 > d.len() {
                JvmError::OutOfBounds { offset: (p + 1) as usize, wanted: 2 }
            } else {
                JvmError::OutOfBounds { offset: (p + 3) as usize, wanted: be_at(d, p + 1, 2) as usize }
            }
        } else if t == 15 {
            if p + 2 > d.len() {
                JvmError::OutOfBounds { offset: (p + 1) as usize, wanted: 1 }
            } else {
                JvmError::OutOfBounds { offset: (p + 2) as usize, wanted: 2 }
            }
        } else if t == 9 || t == 10 || t == 11 || t == 12 || t == 17 || t == 18 {
            if p + 3 > d.len() {
                JvmError::OutOfBounds { offset: (p + 1) as usize, wanted: 2 }
            } else {
                JvmError::OutOfBounds { offset: (p + 3) as usize, wanted: 2 }
            }
        } else {
            JvmError::OutOfBounds { offset: (p + 1) as usize, wanted: payload_len(d, p) as usize }
        }
    }
}

/// Appends `v`'s low `n` bytes, most significant first.
fn push_be(out: &mut Vec<u8>, v: u64, n: usize)
    ensures
        final(out)@ == old(out)@ + be_bytes(v as nat, n as nat),
    decreases n,
{
    if n > 0 {
        push_be(out, v / 256, n - 1);
        out.push((v % 256) as u8);
        assert(final(out)@ =~= old(out)@ + be_bytes(v as nat, n as nat));
    } else {
        assert(final(out)@ =~= old(out)@ + be_bytes(v as nat, n as nat));
    }
}

impl Constant {
    /// Decodes one entry at the reader's offset: a tag byte, then the
    /// layout that tag fixes. Index fields are kept as they are, unchecked.
    pub fn new(reader: &mut BytecodeReader) -> (r: Result<Constant, JvmError>)
        requires
            old(reader).wf(),
        ensures
            final(reader).wf(),
            final(reader).data@ == old(reader).data@,
            r.is_ok() == constant_fits(old(reader).data@, old(reader).offset as int),
            r matches Ok(c) ==> {
                &&& constant_at(old(reader).data@, old(reader).offset as int, c)
                &&& final(reader).offset == old(reader).offset + 1 + payload_len(
                    old(reader).data@,
                    old(reader).offset as int,
                )
            },
            r matches Err(e) ==> e == constant_error(old(reader).data@, old(reader).offset as int),
    {
        let tag = reader.u8()?;
        match tag {
            1u8 => {
                let length = reader.u16()?;
                let bytes = reader.read_as_vec(length as usize)?;
                Ok(Constant::Utf8(ConstantUtf8 { bytes }))
            },
            3u8 => {
                let v = reader.u32()?;
                Ok(Constant::Integer(ConstantInteger { bytes: v as i32 }))
            },
            4u8 => {
                let v = reader.u32()?;
                Ok(Constant::Float(ConstantFloat { bytes: v }))
            },
            5u8 => {
                let v = reader.read_as_u64(8)?;
                Ok(Constant::Long(ConstantLong { bytes: v as i64 }))
            },
            6u8 => {
                let v = reader.read_as_u64(8)?;
                Ok(Constant::Double(ConstantDouble { bytes: v }))
            },
            7u8 => {
                let name_index = reader.u16()?;
                Ok(Constant::Class(ConstantClass { name_index }))
            },
            8u8 => {
                let string_index = reader.u16()?;
                Ok(Constant::String(ConstantString { string_index }))
            },
            9u8 => {
                let class_index = reader.u16()?;
                let name_and_type_index = reader.u16()?;
                Ok(Constant::Fieldref(ConstantFieldref { class_index, name_and_type_index }))
            },
            10u8 => {
                let class_index = reader.u16()?;
                let name_and_type_index = reader.u16()?;
                Ok(Constant::Methodref(ConstantMethodref { class_index, name_and_type_index }))
            },
            11u8 => {
                let class_index = reader.u16()?;
                let name_and_type_index = reader.u16()?;
                Ok(
                    Constant::InterfaceMethodref(
                        ConstantInterfaceMethodref { class_index, name_and_type_index },
                    ),
                )
            },
            12u8 => {
                let name_index = reader.u16()?;
                let descriptor_index = reader.u16()?;
                Ok(Constant::NameAndType(ConstantNameAndType { name_index, descriptor_index }))
            },
            15u8 => {
                let reference_kind = reader.u8()?;
                let reference_index = reader.u16()?;
                Ok(
                    Constant::MethodHandle(
                        ConstantMethodHandle { reference_kind, reference_index },
                    ),
                )
            },
            16u8 => {
                let descriptor_index = reader.u16()?;
                Ok(Constant::MethodType(ConstantMethodType { descriptor_index }))
            },
            17u8 => {
                let bootstrap_method_attr_index = reader.u16()?;
                let name_and_type_index = reader.u16()?;
                Ok(
                    Constant::Dynamic(
                        ConstantDynamic { bootstrap_method_attr_index, name_and_type_index },
                    ),
                )
            },
            18u8 => {
                let bootstrap_method_attr_index = reader.u16()?;
                let name_and_type_index = reader.u16()?;
                Ok(
                    Constant::InvokeDynamic(
                        ConstantInvokeDynamic { bootstrap_method_attr_index, name_and_type_index },
                    ),
                )
            },
            19u8 => {
                let name_index = reader.u16()?;
                Ok(Constant::Module(ConstantModule { name_index }))
            },
            20u8 => {
                let name_index = reader.u16()?;
                Ok(Constant::Package(ConstantPackage { name_index }))
            },
            _ => Err(JvmError::UnknownConstantTag { tag }),
        }
    }

    /// The entry written out as it stands in a class file.
    pub fn to_bytes(&self) -> (r: Vec<u8>)
        requires
            self.wf(),
        ensures
            r@ == self.spec_bytes(),
    {
        let mut out: Vec<u8> = Vec::new();
        out.push(self.tag());
        match self {
            Constant::Utf8(x) => {
                push_be(&mut out, x.bytes.len() as u64, 2);
                let mut i: usize = 0;
                let ghost start = out@;
                while i < x.bytes.len()
                    invariant
                        i <= x.bytes@.len(),
                        out@ == start + x.bytes@.subrange(0, i as int),
                    decreases x.bytes@.len() - i,
                {
                    out.push(x.bytes[i]);
                    i = i + 1;
                    assert(out@ =~= start + x.bytes@.subrange(0, i as int));
                }
                assert(x.bytes@.subrange(0, i as int) =~= x.bytes@);
            },
            Constant::Integer(x) => push_be(&mut out, x.bytes as u32 as u64, 4),
            Constant::Float(x) => push_be(&mut out, x.bytes as u64, 4),
            Constant::Long(x) => push_be(&mut out, x.bytes as u64, 8),
            Constant::Double(x) => push_be(&mut out, x.bytes, 8),
            Constant::Class(x) => push_be(&mut out, x.name_index as u64, 2),
            Constant::String(x) => push_be(&mut out, x.string_index as u64, 2),
            Constant::Fieldref(x) => {
                push_be(&mut out, x.class_index as u64, 2);
                push_be(&mut out, x.name_and_type_index as u64, 2);
            },
            Constant::Methodref(x) => {
                push_be(&mut out, x.class_index as u64, 2);
                push_be(&mut out, x.name_and_type_index as u64, 2);
            },
            Constant::InterfaceMethodref(x) => {
                push_be(&mut out, x.class_index as u64, 2);
                push_be(&mut out, x.name_and_type_index as u64, 2);
            },
            Constant::NameAndType(x) => {
                push_be(&mut out, x.name_index as u64, 2);
                push_be(&mut out, x.descriptor_index as u64, 2);
            },
            Constant::MethodHandle(x) => {
                out.push(x.reference_kind);
                push_be(&mut out, x.reference_index as u64, 2);
            },
            Constant::MethodType(x) => push_be(&mut out, x.descriptor_index as u64, 2),
            Constant::Dynamic(x) => {
                push_be(&mut out, x.bootstrap_method_attr_index as u64, 2);
                push_be(&mut out, x.name_and_type_index as u64, 2);
            },
            Constant::InvokeDynamic(x) => {
                push_be(&mut out, x.bootstrap_method_attr_index as u64, 2);
                push_be(&mut out, x.name_and_type_index as u64, 2);
            },
            Constant::Module(x) => push_be(&mut out, x.name_index as u64, 2),
            Constant::Package(x) => push_be(&mut out, x.name_index as u64, 2),
        }
        assert(out@ =~= self.spec_bytes());
        out
    }

    /// The entry's tag byte.
    pub fn tag(&self) -> (r: u8)
        ensures
            r == self.spec_tag(),
    {
        match self {
            Constant::Utf8(_) => 1,
            Constant::Integer(_) => 3,
            Constant::Float(_) => 4,
            Constant::Long(_) => 5,
            Constant::Double(_) => 6,
            Constant::Class(_) => 7,
            Constant::String(_) => 8,
            Constant::Fieldref(_) => 9,
            Constant::Methodref(_) => 10,
            Constant::InterfaceMethodref(_) => 11,
            Constant::NameAndType(_) => 12,
            Constant::MethodHandle(_) => 15,
            Constant::MethodType(_) => 16,
            Constant::Dynamic(_) => 17,
            Constant::InvokeDynamic(_) => 18,
            Constant::Module(_) => 19,
            Constant::Package(_) => 20,
        }
    }
}

/// Where the first `n` entries of a pool that starts at `p` end, or the
/// error of the first entry that cannot be read.
pub open spec fn pool_check(d: Seq<u8>, p: int, n: int) -> Result<int, JvmError>
    decreases n,
{
    if n <= 0 {
        Ok(p)
    } else {
        match pool_check(d, p, n - 1) {
            Ok(q) => if constant_fits(d, q) {
                Ok(q + 1 + payload_len(d, q))
            } else {
                Err(constant_error(d, q))
            },
            Err(e) => Err(e),
        }
    }
}

/// `c` is the entry decoded in the `i`th place of the pool at `p`.
pub open spec fn entry_at(d: Seq<u8>, p: int, i: int, c: Constant) -> bool {
    match pool_check(d, p, i) {
        Ok(q) => constant_at(d, q, c),
        Err(_) => false,
    }
}

/// `s` is the pool decoded from the bytes at `p`, entry by entry.
pub open spec fn pool_at(d: Seq<u8>, p: int, s: Seq<Constant>) -> bool {
    forall|i: int|
        #![trigger s[i]]
        0 <= i < s.len() ==> entry_at(d, p, i, s[i])
}

/// The number of entries that a pool count announces: one less than the
/// count, and none for a count of 0.
pub open spec fn pool_entries(count: u16) -> nat {
    if count == 0 {
        0
    } else {
        (count - 1) as nat
    }
}

proof fn lemma_pool_at_push(d: Seq<u8>, p: int, s: Seq<Constant>, c: Constant)
    requires
        pool_at(d, p, s),
        pool_check(d, p, s.len() as int) is Ok,
        constant_at(d, pool_check(d, p, s.len() as int).unwrap(), c),
    ensures
        pool_at(d, p, s.push(c)),
{
    let t = s.push(c);
    assert forall|j: int| 0 <= j < t.len() implies entry_at(d, p, j, #[trigger] t[j]) by {
        if j < s.len() {
            assert(t[j] == s[j]);
        }
    }
}

proof fn lemma_pool_check_fails_on(d: Seq<u8>, p: int, i: int, n: int, e: JvmError)
    requires
        0 <= i <= n,
        pool_check(d, p, i) == Err::<int, JvmError>(e),
    ensures
        pool_check(d, p, n) == Err::<int, JvmError>(e),
    decreases n - i,
{
    if i < n {
        lemma_pool_check_fails_on(d, p, i + 1, n, e);
    }
}

/// Decodes the entries of a constant pool whose count is `count`: `count - 1`
/// entries, one after another.
pub fn read_constant_pool(reader: &mut BytecodeReader, count: u16) -> (r: Result<
    Vec<Constant>,
    JvmError,
>)
    requires
        old(reader).wf(),
    ensures
        final(reader).wf(),
        final(reader).data@ == old(reader).data@,
        r.is_ok() == pool_check(
            old(reader).data@,
            old(reader).offset as int,
            pool_entries(count) as int,
        ) is Ok,
        r matches Ok(v) ==> {
            &&& v@.len() == pool_entries(count)
            &&& pool_at(old(reader).data@, old(reader).offset as int, v@)
            &&& pool_check(old(reader).data@, old(reader).offset as int, pool_entries(count) as int)
                == Ok::<int, JvmError>(final(reader).offset as int)
        },
        r matches Err(e) ==> pool_check(
            old(reader).data@,
            old(reader).offset as int,
            pool_entries(count) as int,
        ) == Err::<int, JvmError>(e),
{
    let ghost d = reader.data@;
    let ghost p = reader.offset as int;
    let n: u16 = if count == 0 {
        0
    } else {
        count - 1
    };
    let mut pool: Vec<Constant> = Vec::new();
    let mut i: u16 = 0;
    while i < n
        invariant
            reader.wf(),
            reader.data@ == d,
            d == old(reader).data@,
            p == old(reader).offset as int,
            n == pool_entries(count),
            i <= n,
            pool@.len() == i,
            pool_at(d, p, pool@),
            pool_check(d, p, i as int) == Ok::<int, JvmError>(reader.offset as int),
        decreases n - i,
    {
        let ghost q = reader.offset as int;
        match Constant::new(reader) {
            Ok(c) => {
                let ghost before = pool@;
                pool.push(c);
                proof {
                    lemma_pool_at_push(d, p, before, c);
                }
            },
            Err(e) => {
                proof {
                    lemma_pool_check_fails_on(d, p, i + 1, n as int, e);
                }
                return Err(e);
            },
        }
        i = i + 1;
    }
    Ok(pool)
}

/// The entry at 1-based `index` of `pool`.
pub open spec fn pool_entry(pool: Seq<Constant>, index: int) -> Result<Constant, JvmError> {
    if 1 <= index <= pool.len() {
        Ok(pool[index - 1])
    } else {
        Err(JvmError::IndexOutOfRange { index: index as usize })
    }
}

/// The pool as far as text lookups see it: each Utf8 entry's bytes, and
/// nothing for entries of other kinds.
pub open spec fn utf8_entries(pool: Seq<Constant>) -> Seq<Option<Seq<u8>>> {
    pool.map_values(
        |c: Constant|
            match c {
                Constant::Utf8(u) => Some(u.bytes@),
                _ => None,
            },
    )
}

/// The text of the Utf8 entry at 1-based `index` of a pool seen through
/// `utf8_entries`.
pub open spec fn entry_text(entries: Seq<Option<Seq<u8>>>, index: int) -> Result<
    Seq<char>,
    JvmError,
> {
    if 1 <= index <= entries.len() {
        match entries[index - 1] {
            Some(b) => if valid_utf8(b) {
                Ok(decode_utf8(b))
            } else {
                Err(JvmError::InvalidUtf8)
            },
            None => Err(JvmError::WrongConstantKind { index: index as usize }),
        }
    } else {
        Err(JvmError::IndexOutOfRange { index: index as usize })
    }
}

/// The text of the Utf8 entry at `index`.
pub open spec fn utf8_text(pool: Seq<Constant>, index: int) -> Result<Seq<char>, JvmError> {
    entry_text(utf8_entries(pool), index)
}

/// The class name that the Class entry at `index` names: exactly one Class
/// entry, then exactly one Utf8 entry.
pub open spec fn class_name_text(pool: Seq<Constant>, index: int) -> Result<Seq<char>, JvmError> {
    match pool_entry(pool, index) {
        Ok(Constant::Class(c)) => utf8_text(pool, c.name_index as int),
        Ok(_) => Err(JvmError::WrongConstantKind { index: index as usize }),
        Err(e) => Err(e),
    }
}

/// A class name resolves through exactly one Class entry and then exactly
/// one Utf8 entry; when either step meets an index out of range or an entry
/// of another kind, resolution fails with a resolution error.
pub proof fn lemma_class_name_resolution(pool: Seq<Constant>, index: int)
    ensures
        match pool_entry(pool, index) {
            Ok(Constant::Class(c)) => match pool_entry(pool, c.name_index as int) {
                Ok(Constant::Utf8(u)) => class_name_text(pool, index) == if valid_utf8(u.bytes@) {
                    Ok::<Seq<char>, JvmError>(decode_utf8(u.bytes@))
                } else {
                    Err::<Seq<char>, JvmError>(JvmError::InvalidUtf8)
                },
                _ => class_name_text(pool, index) matches Err(e) && e.spec_kind()
                    == ErrorKind::Resolution,
            },
            _ => class_name_text(pool, index) matches Err(e) && e.spec_kind()
                == ErrorKind::Resolution,
        },
{
}

/// A text result seen as characters.
pub open spec fn text_of(r: Result<String, JvmError>) -> Result<Seq<char>, JvmError> {
    match r {
        Ok(s) => Ok(s@),
        Err(e) => Err(e),
    }
}

/// The entry at 1-based `index`.
pub fn pool_get(pool: &Vec<Constant>, index: usize) -> (r: Result<&Constant, JvmError>)
    ensures
        match (r, pool_entry(pool@, index as int)) {
            (Ok(c), Ok(c2)) => *c == c2,
            (Err(e), Err(e2)) => e == e2,
            _ => false,
        },
{
    if index == 0 || index > pool.len() {
        Err(JvmError::IndexOutOfRange { index })
    } else {
        Ok(&pool[index - 1])
    }
}

impl Constant {
    /// The text of the Utf8 entry at `constant_index`.
    pub fn read_utf8_data(constant_pool: &Vec<Constant>, constant_index: u16) -> (r: Result<
        String,
        JvmError,
    >)
        ensures
            text_of(r) == utf8_text(constant_pool@, constant_index as int),
    {
        match pool_get(constant_pool, constant_index as usize)? {
            Constant::Utf8(u) => {
                let bytes = u.bytes.clone();
                assert(bytes@ =~= u.bytes@);
                match utf8_to_string(bytes) {
                    Some(s) => Ok(s),
                    None => Err(JvmError::InvalidUtf8),
                }
            },
            _ => Err(JvmError::WrongConstantKind { index: constant_index as usize }),
        }
    }

    /// The class name behind the Class entry at `class_index`.
    pub fn read_class_name(constant_pool: &Vec<Constant>, class_index: u16) -> (r: Result<
        String,
        JvmError,
    >)
        ensures
            text_of(r) == class_name_text(constant_pool@, class_index as int),
    {
        match pool_get(constant_pool, class_index as usize)? {
            Constant::Class(c) => Constant::read_utf8_data(constant_pool, c.name_index),
            _ => Err(JvmError::WrongConstantKind { index: class_index as usize }),
        }
    }
}

/// Two pools decoded from the same bytes agree on every text and on every
/// class name they resolve.
pub proof fn lemma_pool_at_unique(d: Seq<u8>, p: int, s1: Seq<Constant>, s2: Seq<Constant>)
    requires
        pool_at(d, p, s1),
        pool_at(d, p, s2),
        s1.len() == s2.len(),
    ensures
        utf8_entries(s1) == utf8_entries(s2),
        forall|i: int| class_name_text(s1, i) == class_name_text(s2, i),
{
    assert forall|i: int| 0 <= i < s1.len() implies #[trigger] s1[i].spec_tag() == s2[i].spec_tag()
        && (s1[i] matches Constant::Utf8(u1) ==> s2[i] matches Constant::Utf8(u2) && u1.bytes@
        == u2.bytes@) && (s1[i] matches Constant::Class(c1) ==> s2[i] matches Constant::Class(c2)
        && c1.name_index == c2.name_index) by {
        assert(entry_at(d, p, i, s1[i]));
        assert(entry_at(d, p, i, s2[i]));
    }
    assert(utf8_entries(s1) =~= utf8_entries(s2));
    assert forall|i: int| class_name_text(s1, i) == class_name_text(s2, i) by {
        if 1 <= i <= s1.len() {
            assert(s1[i - 1].spec_tag() == s2[i - 1].spec_tag());
        }
    }
}

} // verus!
