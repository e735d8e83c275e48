use vstd::prelude::*;

use crate::attribute::{list_check, list_values, read_attributes, Attribute};
use crate::constant::{
    class_name_text, entry_text, lemma_pool_at_unique, pool_at, pool_check, pool_entries,
    read_constant_pool, utf8_entries, Constant,
};
use crate::error::JvmError;
use crate::reader::{be_at, BytecodeReader};

verus! {

/// The four bytes that open every class file.
pub const CLASS_MAGIC: u32 = 0xCAFEBABE;

/// Where the field or method at `p` ends, or the error of the first read
/// or lookup that fails: flags, name index, name, descriptor index,
/// descriptor, attribute count, attributes.
pub open spec fn member_check(d: Seq<u8>, p: int, pool: Seq<Option<Seq<u8>>>) -> Result<
    int,
    JvmError,
> {
    if p < 0 || p + 2 > d.len() {
        Err(JvmError::OutOfBounds { offset: p as usize, wanted: 2 })
    } else if p + 4 > d.len() {
        Err(JvmError::OutOfBounds { offset: (p + 2) as usize, wanted: 2 })
    } else {
        match entry_text(pool, be_at(d, p + 2, 2) as int) {
            Err(e) => Err(e),
            Ok(_) => if p + 6 > d.len() {
                Err(JvmError::OutOfBounds { offset: (p + 4) as usize, wanted: 2 })
            } else {
                match entry_text(pool, be_at(d, p + 4, 2) as int) {
                    Err(e) => Err(e),
                    Ok(_) => if p + 8 > d.len() {
                        Err(JvmError::OutOfBounds { offset: (p + 6) as usize, wanted: 2 })
                    } else {
                        list_check(d, p + 8, be_at(d, p + 6, 2) as int, pool)
                    },
                }
            },
        }
    }
}

/// The field or method at `p` has these flags, name, descriptor and attributes.
pub open spec fn member_at(
    d: Seq<u8>,
    p: int,
    pool: Seq<Option<Seq<u8>>>,
    access_flags: u16,
    name: Seq<char>,
    descriptor: Seq<char>,
    attributes: Seq<Attribute>,
) -> bool {
    &&& 0 <= p && p + 8 <= d.len()
    &&& access_flags == be_at(d, p, 2) as u16
    &&& entry_text(pool, be_at(d, p + 2, 2) as int) == Ok::<Seq<char>, JvmError>(name)
    &&& entry_text(pool, be_at(d, p + 4, 2) as int) == Ok::<Seq<char>, JvmError>(descriptor)
    &&& list_values(d, p + 8, be_at(d, p + 6, 2) as int, pool, attributes)
}

/// Where the first `n` of the fields or methods that start at `p` end, or
/// the error of the first that fails.
pub open spec fn members_check(d: Seq<u8>, p: int, n: int, pool: Seq<Option<Seq<u8>>>) -> Result<
    int,
    JvmError,
>
    decreases n,
{
    if n <= 0 {
        Ok(p)
    } else {
        match members_check(d, p, n - 1, pool) {
            Ok(q) => member_check(d, q, pool),
            Err(e) => Err(e),
        }
    }
}

pub open spec fn field_entry_at(
    d: Seq<u8>,
    p: int,
    i: int,
    pool: Seq<Option<Seq<u8>>>,
    f: Field,
) -> bool {
    match members_check(d, p, i, pool) {
        Ok(q) => member_at(d, q, pool, f.access_flags, f.name@, f.descriptor@, f.attributes@),
        Err(_) => false,
    }
}

pub open spec fn method_entry_at(
    d: Seq<u8>,
    p: int,
    i: int,
    pool: Seq<Option<Seq<u8>>>,
    m: Method,
) -> bool {
    match members_check(d, p, i, pool) {
        Ok(q) => member_at(d, q, pool, m.access_flags, m.name@, m.descriptor@, m.attributes@),
        Err(_) => false,
    }
}

proof fn lemma_members_check_fails_on(
    d: Seq<u8>,
    p: int,
    i: int,
    n: int,
    pool: Seq<Option<Seq<u8>>>,
    e: JvmError,
)
    requires
        0 <= i <= n,
        members_check(d, p, i, pool) == Err::<int, JvmError>(e),
    ensures
        members_check(d, p, n, pool) == Err::<int, JvmError>(e),
    decreases n - i,
{
    if i < n {
        lemma_members_check_fails_on(d, p, i + 1, n, pool, e);
    }
}

/// A field of a class: flags, resolved name and descriptor, attributes.
#[derive(Debug)]
pub struct Field {
    pub access_flags: u16,
    pub name: String,
    pub descriptor: String,
    pub attributes: Vec<Attribute>,
}

/// A method of a class, laid out as a field is.
#[derive(Debug)]
pub struct Method {
    pub access_flags: u16,
    pub name: String,
    pub descriptor: String,
    pub attributes: Vec<Attribute>,
}

/// Reads the common layout of a field or a method.
fn read_member(reader: &mut BytecodeReader, constant_pool: &Vec<Constant>) -> (r: Result<
    (u16, String, String, Vec<Attribute>),
    JvmError,
>)
    requires
        old(reader).wf(),
    ensures
        final(reader).wf(),
        final(reader).data@ == old(reader).data@,
        r.is_ok() == member_check(
            old(reader).data@,
            old(reader).offset as int,
            utf8_entries(constant_pool@),
        ) is Ok,
        r matches Err(e) ==> member_check(
            old(reader).data@,
            old(reader).offset as int,
            utf8_entries(constant_pool@),
        ) == Err::<int, JvmError>(e),
        r matches Ok(m) ==> {
            &&& member_at(
                old(reader).data@,
                old(reader).offset as int,
                utf8_entries(constant_pool@),
                m.0,
                m.1@,
                m.2@,
                m.3@,
            )
            &&& member_check(
                old(reader).data@,
                old(reader).offset as int,
                utf8_entries(constant_pool@),
            ) == Ok::<int, JvmError>(final(reader).offset as int)
        },
{
    let access_flags = reader.u16()?;
    let name_index = reader.u16()?;
    let name = Constant::read_utf8_data(constant_pool, name_index)?;
    let descriptor_index = reader.u16()?;
    let descriptor = Constant::read_utf8_data(constant_pool, descriptor_index)?;
    let attributes_count = reader.u16()?;
    let attributes = read_attributes(reader, attributes_count, constant_pool)?;
    Ok((access_flags, name, descriptor, attributes))
}

impl Field {
    /// Decodes the field at the reader's offset.
    pub fn new(reader: &mut BytecodeReader, constant_pool: &Vec<Constant>) -> (r: Result<
        Field,
        JvmError,
    >)
        requires
            old(reader).wf(),
        ensures
            final(reader).wf(),
            final(reader).data@ == old(reader).data@,
            r.is_ok() == member_check(
                old(reader).data@,
                old(reader).offset as int,
                utf8_entries(constant_pool@),
            ) is Ok,
            r matches Err(e) ==> member_check(
                old(reader).data@,
                old(reader).offset as int,
                utf8_entries(constant_pool@),
            ) == Err::<int, JvmError>(e),
            r matches Ok(f) ==> {
                &&& member_at(
                    old(reader).data@,
                    old(reader).offset as int,
                    utf8_entries(constant_pool@),
                    f.access_flags,
                    f.name@,
                    f.descriptor@,
                    f.attributes@,
                )
                &&& member_check(
                    old(reader).data@,
                    old(reader).offset as int,
                    utf8_entries(constant_pool@),
                ) == Ok::<int, JvmError>(final(reader).offset as int)
            },
    {
        let (access_flags, name, descriptor, attributes) = read_member(reader, constant_pool)?;
        Ok(Field { access_flags, name, descriptor, attributes })
    }
}

impl Method {
    /// Decodes the method at the reader's offset.
    pub fn new(reader: &mut BytecodeReader, constant_pool: &Vec<Constant>) -> (r: Result<
        Method,
        JvmError,
    >)
        requires
            old(reader).wf(),
        ensures
            final(reader).wf(),
            final(reader).data@ == old(reader).data@,
            r.is_ok() == member_check(
                old(reader).data@,
                old(reader).offset as int,
                utf8_entries(constant_pool@),
            ) is Ok,
            r matches Err(e) ==> member_check(
                old(reader).data@,
                old(reader).offset as int,
                utf8_entries(constant_pool@),
            ) == Err::<int, JvmError>(e),
            r matches Ok(m) ==> {
                &&& member_at(
                    old(reader).data@,
                    old(reader).offset as int,
                    utf8_entries(constant_pool@),
                    m.access_flags,
                    m.name@,
                    m.descriptor@,
                    m.attributes@,
                )
                &&& member_check(
                    old(reader).data@,
                    old(reader).offset as int,
                    utf8_entries(constant_pool@),
                ) == Ok::<int, JvmError>(final(reader).offset as int)
            },
    {
        let (access_flags, name, descriptor, attributes) = read_member(reader, constant_pool)?;
        Ok(Method { access_flags, name, descriptor, attributes })
    }
}

/// Decodes `count` fields one after another.
fn read_fields(reader: &mut BytecodeReader, count: u16, constant_pool: &Vec<Constant>) -> (r:
    Result<Vec<Field>, JvmError>)
    requires
        old(reader).wf(),
    ensures
        final(reader).wf(),
        final(reader).data@ == old(reader).data@,
        r.is_ok() == members_check(
            old(reader).data@,
            old(reader).offset as int,
            count as int,
            utf8_entries(constant_pool@),
        ) is Ok,
        r matches Err(e) ==> members_check(
            old(reader).data@,
            old(reader).offset as int,
            count as int,
            utf8_entries(constant_pool@),
        ) == Err::<int, JvmError>(e),
        r matches Ok(v) ==> {
            &&& v@.len() == count
            &&& forall|i: int|
                0 <= i < v@.len() ==> field_entry_at(
                    old(reader).data@,
                    old(reader).offset as int,
                    i,
                    utf8_entries(constant_pool@),
                    #[trigger] v@[i],
                )
            &&& members_check(
                old(reader).data@,
                old(reader).offset as int,
                count as int,
                utf8_entries(constant_pool@),
            ) == Ok::<int, JvmError>(final(reader).offset as int)
        },
{
    let ghost d = reader.data@;
    let ghost p = reader.offset as int;
    let ghost pool = utf8_entries(constant_pool@);
    let mut items: Vec<Field> = Vec::new();
    let mut i: u16 = 0;
    while i < count
        invariant
            reader.wf(),
            reader.data@ == d,
            d == old(reader).data@,
            p == old(reader).offset as int,
            pool == utf8_entries(constant_pool@),
            i <= count,
            items@.len() == i,
            members_check(d, p, i as int, pool) == Ok::<int, JvmError>(reader.offset as int),
            forall|j: int| 0 <= j < i ==> field_entry_at(d, p, j, pool, #[trigger] items@[j]),
        decreases count - i,
    {
        let ghost before = items@;
        match Field::new(reader, constant_pool) {
            Ok(x) => {
                items.push(x);
                assert forall|j: int| 0 <= j < i + 1 implies field_entry_at(
                    d,
                    p,
                    j,
                    pool,
                    #[trigger] items@[j],
                ) by {
                    if j < i {
                        assert(items@[j] == before[j]);
                    }
                }
            },
            Err(e) => {
                proof {
                    lemma_members_check_fails_on(d, p, i + 1, count as int, pool, e);
                }
                return Err(e);
            },
        }
        i = i + 1;
    }
    Ok(items)
}

/// Decodes `count` methods one after another.
fn read_methods(reader: &mut BytecodeReader, count: u16, constant_pool: &Vec<Constant>) -> (r:
    Result<Vec<Method>, JvmError>)
    requires
        old(reader).wf(),
    ensures
        final(reader).wf(),
        final(reader).data@ == old(reader).data@,
        r.is_ok() == members_check(
            old(reader).data@,
            old(reader).offset as int,
            count as int,
            utf8_entries(constant_pool@),
        ) is Ok,
        r matches Err(e) ==> members_check(
            old(reader).data@,
            old(reader).offset as int,
            count as int,
            utf8_entries(constant_pool@),
        ) == Err::<int, JvmError>(e),
        r matches Ok(v) ==> {
            &&& v@.len() == count
            &&& forall|i: int|
                0 <= i < v@.len() ==> method_entry_at(
                    old(reader).data@,
                    old(reader).offset as int,
                    i,
                    utf8_entries(constant_pool@),
                    #[trigger] v@[i],
                )
            &&& members_check(
                old(reader).data@,
                old(reader).offset as int,
                count as int,
                utf8_entries(constant_pool@),
            ) == Ok::<int, JvmError>(final(reader).offset as int)
        },
{
    let ghost d = reader.data@;
    let ghost p = reader.offset as int;
    let ghost pool = utf8_entries(constant_pool@);
    let mut items: Vec<Method> = Vec::new();
    let mut i: u16 = 0;
    while i < count
        invariant
            reader.wf(),
            reader.data@ == d,
            d == old(reader).data@,
            p == old(reader).offset as int,
            pool == utf8_entries(constant_pool@),
            i <= count,
            items@.len() == i,
            members_check(d, p, i as int, pool) == Ok::<int, JvmError>(reader.offset as int),
            forall|j: int| 0 <= j < i ==> method_entry_at(d, p, j, pool, #[trigger] items@[j]),
        decreases count - i,
    {
        let ghost before = items@;
        match Method::new(reader, constant_pool) {
            Ok(x) => {
                items.push(x);
                assert forall|j: int| 0 <= j < i + 1 implies method_entry_at(
                    d,
                    p,
                    j,
                    pool,
                    #[trigger] items@[j],
                ) by {
                    if j < i {
                        assert(items@[j] == before[j]);
                    }
                }
            },
            Err(e) => {
                proof {
                    lemma_members_check_fails_on(d, p, i + 1, count as int, pool, e);
                }
                return Err(e);
            },
        }
        i = i + 1;
    }
    Ok(items)
}

/// The pool count that the class file declares.
pub open spec fn pool_count_at(d: Seq<u8>) -> u16 {
    be_at(d, 8, 2) as u16
}

/// The outcome of reading a class file up to the end of its constant pool:
/// where the pool ends, or the error of the first read that fails.
pub open spec fn class_head_check(d: Seq<u8>) -> Result<int, JvmError> {
    if d.len() < 4 {
        Err(JvmError::OutOfBounds { offset: 0, wanted: 4 })
    } else if be_at(d, 0, 4) != CLASS_MAGIC {
        Err(JvmError::NotAClassFile)
    } else if d.len() < 6 {
        Err(JvmError::OutOfBounds { offset: 4, wanted: 2 })
    } else if d.len() < 8 {
        Err(JvmError::OutOfBounds { offset: 6, wanted: 2 })
    } else if d.len() < 10 {
        Err(JvmError::OutOfBounds { offset: 8, wanted: 2 })
    } else {
        pool_check(d, 10, pool_entries(pool_count_at(d)) as int)
    }
}

/// The number of interfaces, for a pool that ends at `pe`.
pub open spec fn interfaces_count_at(d: Seq<u8>, pe: int) -> int {
    be_at(d, pe + 6, 2) as int
}

/// Where the field count stands, for a pool that ends at `pe`.
pub open spec fn fields_count_pos(d: Seq<u8>, pe: int) -> int {
    pe + 8 + 2 * interfaces_count_at(d, pe)
}

/// The outcome of reading what follows a pool `s` that ends at `pe`: flags,
/// this and super class names resolved through `s`, interfaces, fields,
/// methods and attributes, or the error of the first read or lookup that
/// fails.
pub open spec fn class_tail_check(d: Seq<u8>, pe: int, s: Seq<Constant>) -> Result<(), JvmError> {
    let pv = utf8_entries(s);
    let fc = fields_count_pos(d, pe);
    if pe < 0 || pe + 2 > d.len() {
        Err(JvmError::OutOfBounds { offset: pe as usize, wanted: 2 })
    } else if pe + 4 > d.len() {
        Err(JvmError::OutOfBounds { offset: (pe + 2) as usize, wanted: 2 })
    } else if class_name_text(s, be_at(d, pe + 2, 2) as int) is Err {
        Err(class_name_text(s, be_at(d, pe + 2, 2) as int)->Err_0)
    } else if pe + 6 > d.len() {
        Err(JvmError::OutOfBounds { offset: (pe + 4) as usize, wanted: 2 })
    } else if class_name_text(s, be_at(d, pe + 4, 2) as int) is Err {
        Err(class_name_text(s, be_at(d, pe + 4, 2) as int)->Err_0)
    } else if pe + 8 > d.len() {
        Err(JvmError::OutOfBounds { offset: (pe + 6) as usize, wanted: 2 })
    } else if fc > d.len() {
        Err(
            JvmError::OutOfBounds {
                offset: (pe + 8) as usize,
                wanted: (2 * interfaces_count_at(d, pe)) as usize,
            },
        )
    } else if fc + 2 > d.len() {
        Err(JvmError::OutOfBounds { offset: fc as usize, wanted: 2 })
    } else {
        match members_check(d, fc + 2, be_at(d, fc, 2) as int, pv) {
            Err(e) => Err(e),
            Ok(fe) => if fe + 2 > d.len() {
                Err(JvmError::OutOfBounds { offset: fe as usize, wanted: 2 })
            } else {
                match members_check(d, fe + 2, be_at(d, fe, 2) as int, pv) {
                    Err(e) => Err(e),
                    Ok(me) => if me + 2 > d.len() {
                        Err(JvmError::OutOfBounds { offset: me as usize, wanted: 2 })
                    } else {
                        match list_check(d, me + 2, be_at(d, me, 2) as int, pv) {
                            Ok(_) => Ok(()),
                            Err(e) => Err(e),
                        }
                    },
                }
            },
        }
    }
}

/// The pools that the bytes of a class file decode to.
pub open spec fn decoded_pool(d: Seq<u8>, s: Seq<Constant>) -> bool {
    pool_at(d, 10, s) && s.len() == pool_entries(pool_count_at(d))
}

/// Whether the bytes `d` decode as a class file.
pub open spec fn class_ok(d: Seq<u8>) -> bool {
    match class_head_check(d) {
        Ok(pe) => exists|s: Seq<Constant>|
            #[trigger] decoded_pool(d, s) && class_tail_check(d, pe, s) is Ok,
        Err(_) => false,
    }
}

/// `e` is the error that decoding the class file `d` ends in: the first read
/// or lookup that fails, in the file's order.
pub open spec fn class_failure(d: Seq<u8>, e: JvmError) -> bool {
    match class_head_check(d) {
        Err(e2) => e == e2,
        Ok(pe) => {
            &&& exists|s: Seq<Constant>| #[trigger] decoded_pool(d, s)
            &&& forall|s: Seq<Constant>|
                #[trigger] decoded_pool(d, s) ==> class_tail_check(d, pe, s) == Err::<
                    (),
                    JvmError,
                >(e)
        },
    }
}

/// What follows a pool `s` that ends at `pe`, decoded into these values.
pub open spec fn class_tail_value(
    d: Seq<u8>,
    pe: int,
    s: Seq<Constant>,
    access_flags: u16,
    this_class: Seq<char>,
    super_class: Seq<char>,
    interfaces: Seq<u16>,
    fields: Seq<Field>,
    methods: Seq<Method>,
    attributes: Seq<Attribute>,
) -> bool {
    let pv = utf8_entries(s);
    let fc = fields_count_pos(d, pe);
    &&& access_flags == be_at(d, pe, 2) as u16
    &&& class_name_text(s, be_at(d, pe + 2, 2) as int) == Ok::<Seq<char>, JvmError>(this_class)
    &&& class_name_text(s, be_at(d, pe + 4, 2) as int) == Ok::<Seq<char>, JvmError>(super_class)
    &&& interfaces.len() == interfaces_count_at(d, pe)
    &&& forall|i: int|
        0 <= i < interfaces.len() ==> #[trigger] interfaces[i] == be_at(d, pe + 8 + 2 * i, 2) as u16
    &&& fields.len() == be_at(d, fc, 2)
    &&& forall|i: int| 0 <= i < fields.len() ==> field_entry_at(d, fc + 2, i, pv, #[trigger] fields[i])
    &&& match members_check(d, fc + 2, be_at(d, fc, 2) as int, pv) {
        Ok(fe) => {
            &&& methods.len() == be_at(d, fe, 2)
            &&& forall|i: int|
                0 <= i < methods.len() ==> method_entry_at(d, fe + 2, i, pv, #[trigger] methods[i])
            &&& match members_check(d, fe + 2, be_at(d, fe, 2) as int, pv) {
                Ok(me) => list_values(d, me + 2, be_at(d, me, 2) as int, pv, attributes),
                Err(_) => false,
            }
        },
        Err(_) => false,
    }
}

/// A decoded class file. Immutable once decoded.
#[derive(Debug)]
pub struct Class {
    pub minor_version: u16,
    pub major_version: u16,
    pub constant_pool: Vec<Constant>,
    pub access_flags: u16,
    pub this_class: String,
    pub super_class: String,
    pub interfaces: Vec<u16>,
    pub fields: Vec<Field>,
    pub methods: Vec<Method>,
    pub attributes: Vec<Attribute>,
}

/// `c` is what the class file `d` decodes to.
pub open spec fn class_value(d: Seq<u8>, c: Class) -> bool {
    match class_head_check(d) {
        Ok(pe) => {
            &&& c.minor_version == be_at(d, 4, 2) as u16
            &&& c.major_version == be_at(d, 6, 2) as u16
            &&& decoded_pool(d, c.constant_pool@)
            &&& class_tail_value(
                d,
                pe,
                c.constant_pool@,
                c.access_flags,
                c.this_class@,
                c.super_class@,
                c.interfaces@,
                c.fields@,
                c.methods@,
                c.attributes@,
            )
        },
        Err(_) => false,
    }
}

proof fn lemma_class_tail_unique(d: Seq<u8>, pe: int, s: Seq<Constant>, v: Seq<Constant>)
    requires
        decoded_pool(d, s),
        decoded_pool(d, v),
    ensures
        class_tail_check(d, pe, s) == class_tail_check(d, pe, v),
{
    lemma_pool_at_unique(d, 10, s, v);
}

/// What a class file holds after its constant pool.
struct ClassTail {
    access_flags: u16,
    this_class: String,
    super_class: String,
    interfaces: Vec<u16>,
    fields: Vec<Field>,
    methods: Vec<Method>,
    attributes: Vec<Attribute>,
}

/// Decodes what follows the constant pool, resolving the class names
/// through it.
fn read_class_tail(reader: &mut BytecodeReader, constant_pool: &Vec<Constant>) -> (r: Result<
    ClassTail,
    JvmError,
>)
    requires
        old(reader).wf(),
    ensures
        r.is_ok() == class_tail_check(old(reader).data@, old(reader).offset as int, constant_pool@) is Ok,
        r matches Ok(t) ==> class_tail_value(
            old(reader).data@,
            old(reader).offset as int,
            constant_pool@,
            t.access_flags,
            t.this_class@,
            t.super_class@,
            t.interfaces@,
            t.fields@,
            t.methods@,
            t.attributes@,
        ),
        r matches Err(e) ==> class_tail_check(
            old(reader).data@,
            old(reader).offset as int,
            constant_pool@,
        ) == Err::<(), JvmError>(e),
{
    let ghost d = reader.data@;
    let ghost pe = reader.offset as int;
    let access_flags = reader.u16()?;
    let this_class_index = reader.u16()?;
    let this_class = Constant::read_class_name(constant_pool, this_class_index)?;
    let super_class_index = reader.u16()?;
    let super_class = Constant::read_class_name(constant_pool, super_class_index)?;
    let interfaces_count = reader.u16()?;
    let raw = reader.read_as_vec(2 * (interfaces_count as usize))?;
    let mut raw_reader = BytecodeReader::new(raw);
    let mut interfaces: Vec<u16> = Vec::new();
    let mut i: u16 = 0;
    while i < interfaces_count
        invariant
            raw_reader.wf(),
            raw_reader.data@ == d.subrange(pe + 8, pe + 8 + 2 * (interfaces_count as int)),
            pe + 8 + 2 * (interfaces_count as int) <= d.len(),
            0 <= pe,
            i <= interfaces_count,
            interfaces@.len() == i,
            raw_reader.offset == 2 * (i as int),
            forall|j: int|
                0 <= j < i ==> #[trigger] interfaces@[j] == be_at(d, pe + 8 + 2 * j, 2) as u16,
        decreases interfaces_count - i,
    {
        assert(raw_reader.data@.subrange(2 * i, 2 * i + 2) =~= d.subrange(
            pe + 8 + 2 * i,
            pe + 8 + 2 * i + 2,
        ));
        let x = raw_reader.u16()?;
        interfaces.push(x);
        i = i + 1;
    }
    let fields_count = reader.u16()?;
    let fields = read_fields(reader, fields_count, constant_pool)?;
    let methods_count = reader.u16()?;
    let methods = read_methods(reader, methods_count, constant_pool)?;
    let attributes_count = reader.u16()?;
    let attributes = read_attributes(reader, attributes_count, constant_pool)?;
    Ok(ClassTail { access_flags, this_class, super_class, interfaces, fields, methods, attributes })
}

impl Class {
    /// Decodes a class file, in its fixed order: signature, versions,
    /// constant pool, flags, this and super class names, interfaces, fields,
    /// methods, attributes. Bytes after the last attribute are ignored.
    pub fn new(data: Vec<u8>) -> (r: Result<Class, JvmError>)
        ensures
            r.is_ok() == class_ok(data@),
            r matches Ok(c) ==> class_value(data@, c),
            r matches Err(e) ==> class_failure(data@, e),
    {
        let ghost d = data@;
        let mut reader = BytecodeReader::new(data);
        let magic = reader.u32()?;
        if magic != CLASS_MAGIC {
            return Err(JvmError::NotAClassFile);
        }
        let minor_version = reader.u16()?;
        let major_version = reader.u16()?;
        let constant_pool_count = reader.u16()?;
        let constant_pool = read_constant_pool(&mut reader, constant_pool_count)?;
        let ghost pe = reader.offset as int;
        assert(decoded_pool(d, constant_pool@));
        match read_class_tail(&mut reader, &constant_pool) {
            Ok(t) => Ok(
                Class {
                    minor_version,
                    major_version,
                    constant_pool,
                    access_flags: t.access_flags,
                    this_class: t.this_class,
                    super_class: t.super_class,
                    interfaces: t.interfaces,
                    fields: t.fields,
                    methods: t.methods,
                    attributes: t.attributes,
                },
            ),
            Err(e) => {
                assert forall|s: Seq<Constant>| #[trigger]
                    decoded_pool(d, s) implies class_tail_check(d, pe, s) == Err::<
                    (),
                    JvmError,
                >(e) by {
                    lemma_class_tail_unique(d, pe, s, constant_pool@);
                }
                Err(e)
            },
        }
    }
}

} // verus!
