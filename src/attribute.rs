use vstd::prelude::*;

use crate::constant::{entry_text, utf8_entries, Constant};
use crate::error::JvmError;
use crate::reader::{be_at, BytecodeReader};

verus! {

#[derive(Debug)]
pub struct AttributeConstantValue {
    pub constantvalue_index: u16,
}

/// One entry of a Code attribute's exception table.
#[derive(Debug)]
pub struct ExceptionInfo {
    pub start_pc: u16,
    pub end_pc: u16,
    pub handler_pc: u16,
    pub catch_type: u16,
}

/// A method body: its declared bounds, its bytecode, its exception table and
/// the attributes nested in it.
#[derive(Debug)]
pub struct AttributeCode {
    pub max_stack: u16,
    pub max_locals: u16,
    pub code: Vec<u8>,
    pub exception_table: Vec<ExceptionInfo>,
    pub attributes: Vec<Attribute>,
}

/// Each entry holds a start pc and a line number, in that order.
#[derive(Debug)]
pub struct AttributeLineNumberTable {
    pub line_number_table: Vec<Vec<u16>>,
}

#[derive(Debug)]
pub struct AttributeSourceFile {
    pub sourcefile: String,
}

#[derive(Debug)]
pub struct LocalVariableInfo {
    pub start_pc: u16,
    pub length: u16,
    pub name: String,
    pub descriptor: String,
    pub index: u16,
}

#[derive(Debug)]
pub struct AttributeLocalVariableTable {
    pub local_variable_table: Vec<LocalVariableInfo>,
}

/// An attribute of a class, field, method or Code attribute, told apart by
/// its name. Attributes of other names are skipped when decoding.
#[derive(Debug)]
pub enum Attribute {
    ConstantValue(AttributeConstantValue),
    Code(AttributeCode),
    LineNumberTable(AttributeLineNumberTable),
    SourceFile(AttributeSourceFile),
    LocalVariableTable(AttributeLocalVariableTable),
}

/// Which attribute a name selects: 1 ConstantValue, 2 Code, 3
/// LineNumberTable, 4 SourceFile, 5 LocalVariableTable, 0 any other.
pub open spec fn attribute_kind(name: Seq<char>) -> int {
    if name == "ConstantValue"@ {
        1
    } else if name == "Code"@ {
        2
    } else if name == "LineNumberTable"@ {
        3
    } else if name == "SourceFile"@ {
        4
    } else if name == "LocalVariableTable"@ {
        5
    } else {
        0
    }
}

/// The length that the attribute at `p` declares for its body.
pub open spec fn attr_len(d: Seq<u8>, p: int) -> int {
    be_at(d, p + 2, 4) as int
}

/// Whether the attribute's six-byte header and its whole body lie in `d`.
pub open spec fn attr_fits(d: Seq<u8>, p: int) -> bool {
    0 <= p && p + 6 <= d.len() && p + 6 + attr_len(d, p) <= d.len()
}

/// The body of the attribute at `p`.
pub open spec fn attr_body(d: Seq<u8>, p: int) -> Seq<u8> {
    d.subrange(p + 6, p + 6 + attr_len(d, p))
}

/// The Code body's code length.
pub open spec fn code_len(b: Seq<u8>) -> int {
    be_at(b, 4, 4) as int
}

/// Where a Code body's exception table starts.
pub open spec fn code_table_start(b: Seq<u8>) -> int {
    10 + code_len(b)
}

/// The number of entries in a Code body's exception table.
pub open spec fn code_table_len(b: Seq<u8>) -> int {
    be_at(b, 8 + code_len(b), 2) as int
}

/// Where a Code body's attribute count stands.
pub open spec fn code_attrs_at(b: Seq<u8>) -> int {
    code_table_start(b) + 8 * code_table_len(b)
}

/// The outcome of decoding the attribute at `p`: its header and body must
/// lie in `d`, its name must resolve to text, and its body must be well
/// formed for that name; otherwise the error of the first of these to fail.
pub open spec fn attr_check(d: Seq<u8>, p: int, pool: Seq<Option<Seq<u8>>>) -> Result<(), JvmError>
    decreases d.len(), 0int, 0int,
{
    if p < 0 || p + 2 > d.len() {
        Err(JvmError::OutOfBounds { offset: p as usize, wanted: 2 })
    } else if p + 6 > d.len() {
        Err(JvmError::OutOfBounds { offset: (p + 2) as usize, wanted: 4 })
    } else if p + 6 + attr_len(d, p) > d.len() {
        Err(JvmError::OutOfBounds { offset: (p + 6) as usize, wanted: attr_len(d, p) as usize })
    } else {
        match entry_text(pool, be_at(d, p, 2) as int) {
            Ok(name) => body_check(attribute_kind(name), attr_body(d, p), pool),
            Err(e) => Err(e),
        }
    }
}

/// The outcome of decoding `b` as the body of an attribute of `kind`; the
/// body of an attribute that is skipped always decodes.
pub open spec fn body_check(kind: int, b: Seq<u8>, pool: Seq<Option<Seq<u8>>>) -> Result<
    (),
    JvmError,
>
    decreases b.len(), 2int, 0int,
{
    if kind == 0 {
        Ok(())
    } else if kind == 2 {
        if b.len() < 8 || code_len(b) > b.len() - 8 || b.len() - 8 - code_len(b) < 2 {
            Err(JvmError::AttributeLengthMismatch)
        } else if 8 * code_table_len(b) + 2 > b.len() - code_table_start(b) {
            Err(JvmError::AttributeLengthMismatch)
        } else {
            match list_check(b, code_attrs_at(b) + 2, be_at(b, code_attrs_at(b), 2) as int, pool) {
                Ok(end) => if end == b.len() {
                    Ok(())
                } else {
                    Err(JvmError::AttributeLengthMismatch)
                },
                Err(e) => Err(e),
            }
        }
    } else if b.len() < 2 {
        Err(JvmError::AttributeLengthMismatch)
    } else if kind == 1 || kind == 4 {
        if b.len() != 2 {
            Err(JvmError::AttributeLengthMismatch)
        } else if kind == 1 {
            Ok(())
        } else {
            match entry_text(pool, be_at(b, 0, 2) as int) {
                Ok(_) => Ok(()),
                Err(e) => Err(e),
            }
        }
    } else if kind == 3 {
        if b.len() - 2 != 4 * be_at(b, 0, 2) {
            Err(JvmError::AttributeLengthMismatch)
        } else {
            Ok(())
        }
    } else if b.len() - 2 != 10 * be_at(b, 0, 2) {
        Err(JvmError::AttributeLengthMismatch)
    } else {
        lvt_check(b, be_at(b, 0, 2) as int, pool)
    }
}

/// The outcome of resolving the names and descriptors of the first `n`
/// local-variable entries, in order.
pub open spec fn lvt_check(b: Seq<u8>, n: int, pool: Seq<Option<Seq<u8>>>) -> Result<(), JvmError>
    decreases n,
{
    if n <= 0 {
        Ok(())
    } else {
        match lvt_check(b, n - 1, pool) {
            Ok(()) => match entry_text(pool, be_at(b, 6 + 10 * (n - 1), 2) as int) {
                Ok(_) => match entry_text(pool, be_at(b, 8 + 10 * (n - 1), 2) as int) {
                    Ok(_) => Ok(()),
                    Err(e) => Err(e),
                },
                Err(e) => Err(e),
            },
            Err(e) => Err(e),
        }
    }
}

/// Where `n` attributes read one after another from `q` end, or the error
/// of the first that fails.
pub open spec fn list_check(b: Seq<u8>, q: int, n: int, pool: Seq<Option<Seq<u8>>>) -> Result<
    int,
    JvmError,
>
    decreases b.len(), 1int, n,
{
    if n <= 0 {
        Ok(q)
    } else {
        match list_check(b, q, n - 1, pool) {
            Ok(r) => match attr_check(b, r, pool) {
                Ok(()) => Ok(r + 6 + attr_len(b, r)),
                Err(e) => Err(e),
            },
            Err(e) => Err(e),
        }
    }
}

/// Whether the attribute at `p` decodes to a value rather than being skipped.
pub open spec fn attr_known(d: Seq<u8>, p: int, pool: Seq<Option<Seq<u8>>>) -> bool {
    attr_fits(d, p) && (entry_text(pool, be_at(d, p, 2) as int) matches Ok(name) && attribute_kind(
        name,
    ) != 0)
}

/// `e` is the exception-table entry whose eight bytes start at `q`.
pub open spec fn exception_at(b: Seq<u8>, q: int, e: ExceptionInfo) -> bool {
    &&& e.start_pc == be_at(b, q, 2) as u16
    &&& e.end_pc == be_at(b, q + 2, 2) as u16
    &&& e.handler_pc == be_at(b, q + 4, 2) as u16
    &&& e.catch_type == be_at(b, q + 6, 2) as u16
}

/// `e` is the line-number entry whose four bytes start at `q`: its start pc,
/// then its line number.
pub open spec fn line_number_at(b: Seq<u8>, q: int, e: Vec<u16>) -> bool {
    &&& e@.len() == 2
    &&& e@[0] == be_at(b, q, 2) as u16
    &&& e@[1] == be_at(b, q + 2, 2) as u16
}

/// `v` is the local-variable entry whose ten bytes start at `q`, with its name
/// and descriptor resolved through the pool.
pub open spec fn local_variable_at(
    b: Seq<u8>,
    q: int,
    pool: Seq<Option<Seq<u8>>>,
    v: LocalVariableInfo,
) -> bool {
    &&& v.start_pc == be_at(b, q, 2) as u16
    &&& v.length == be_at(b, q + 2, 2) as u16
    &&& entry_text(pool, be_at(b, q + 4, 2) as int) == Ok::<Seq<char>, JvmError>(v.name@)
    &&& entry_text(pool, be_at(b, q + 6, 2) as int) == Ok::<Seq<char>, JvmError>(v.descriptor@)
    &&& v.index == be_at(b, q + 8, 2) as u16
}

/// `a` is what the attribute at `p` decodes to.
pub open spec fn attr_value(d: Seq<u8>, p: int, pool: Seq<Option<Seq<u8>>>, a: Attribute) -> bool
    decreases d.len(), 0int, 0int,
{
    if attr_fits(d, p) {
        match entry_text(pool, be_at(d, p, 2) as int) {
            Ok(name) => body_value(attribute_kind(name), attr_body(d, p), pool, a),
            Err(_) => false,
        }
    } else {
        false
    }
}

/// `a` is what the body `b` of an attribute of `kind` decodes to.
pub open spec fn body_value(kind: int, b: Seq<u8>, pool: Seq<Option<Seq<u8>>>, a: Attribute) -> bool
    decreases b.len(), 2int, 0int,
{
    match a {
        Attribute::ConstantValue(x) => kind == 1 && x.constantvalue_index == be_at(b, 0, 2) as u16,
        Attribute::Code(x) => {
            &&& kind == 2
            &&& x.max_stack == be_at(b, 0, 2) as u16
            &&& x.max_locals == be_at(b, 2, 2) as u16
            &&& x.code@ == b.subrange(8, 8 + code_len(b))
            &&& x.exception_table@.len() == code_table_len(b)
            &&& forall|i: int|
                0 <= i < x.exception_table@.len() ==> exception_at(
                    b,
                    code_table_start(b) + 8 * i,
                    #[trigger] x.exception_table@[i],
                )
            &&& list_values(
                b,
                code_attrs_at(b) + 2,
                be_at(b, code_attrs_at(b), 2) as int,
                pool,
                x.attributes@,
            )
        },
        Attribute::LineNumberTable(x) => {
            &&& kind == 3
            &&& x.line_number_table@.len() == be_at(b, 0, 2)
            &&& forall|i: int|
                0 <= i < x.line_number_table@.len() ==> line_number_at(
                    b,
                    2 + 4 * i,
                    #[trigger] x.line_number_table@[i],
                )
        },
        Attribute::SourceFile(x) => kind == 4 && entry_text(pool, be_at(b, 0, 2) as int) == Ok::<
            Seq<char>,
            JvmError,
        >(x.sourcefile@),
        Attribute::LocalVariableTable(x) => {
            &&& kind == 5
            &&& x.local_variable_table@.len() == be_at(b, 0, 2)
            &&& forall|i: int|
                0 <= i < x.local_variable_table@.len() ==> local_variable_at(
                    b,
                    2 + 10 * i,
                    pool,
                    #[trigger] x.local_variable_table@[i],
                )
        },
    }
}

/// `s` holds, in order, the values of those of the `n` attributes read from
/// `q` that are not skipped.
pub open spec fn list_values(
    b: Seq<u8>,
    q: int,
    n: int,
    pool: Seq<Option<Seq<u8>>>,
    s: Seq<Attribute>,
) -> bool
    decreases b.len(), 1int, n,
{
    if n <= 0 {
        s.len() == 0
    } else {
        match list_check(b, q, n - 1, pool) {
            Ok(r) => if attr_known(b, r, pool) {
                &&& s.len() > 0
                &&& list_values(b, q, n - 1, pool, s.drop_last())
                &&& attr_value(b, r, pool, s.last())
            } else {
                list_values(b, q, n - 1, pool, s)
            },
            Err(_) => false,
        }
    }
}

/// Whether `s` spells out the text `lit`.
fn text_is(s: &String, lit: &str) -> (r: bool)
    ensures
        r == (s@ == lit@),
{
    let t = lit.to_owned();
    *s == t
}

/// The kind of attribute that `name` selects.
fn name_kind(name: &String) -> (r: u8)
    ensures
        r as int == attribute_kind(name@),
{
    if text_is(name, "ConstantValue") {
        1
    } else if text_is(name, "Code") {
        2
    } else if text_is(name, "LineNumberTable") {
        3
    } else if text_is(name, "SourceFile") {
        4
    } else if text_is(name, "LocalVariableTable") {
        5
    } else {
        0
    }
}

proof fn lemma_list_check_fails_on(
    b: Seq<u8>,
    q: int,
    i: int,
    n: int,
    pool: Seq<Option<Seq<u8>>>,
    e: JvmError,
)
    requires
        0 <= i <= n,
        list_check(b, q, i, pool) == Err::<int, JvmError>(e),
    ensures
        list_check(b, q, n, pool) == Err::<int, JvmError>(e),
    decreases n - i,
{
    if i < n {
        lemma_list_check_fails_on(b, q, i + 1, n, pool, e);
    }
}

proof fn lemma_lvt_check_fails_on(b: Seq<u8>, i: int, n: int, pool: Seq<Option<Seq<u8>>>, e: JvmError)
    requires
        0 <= i <= n,
        lvt_check(b, i, pool) == Err::<(), JvmError>(e),
    ensures
        lvt_check(b, n, pool) == Err::<(), JvmError>(e),
    decreases n - i,
{
    if i < n {
        lemma_lvt_check_fails_on(b, i + 1, n, pool, e);
    }
}

/// Decodes `attributes_count` attributes one after another, keeping those of
/// a known name in order and skipping the others.
pub fn read_attributes(
    reader: &mut BytecodeReader,
    attributes_count: u16,
    constant_pool: &Vec<Constant>,
) -> (r: Result<Vec<Attribute>, JvmError>)
    requires
        old(reader).wf(),
    ensures
        final(reader).wf(),
        final(reader).data@ == old(reader).data@,
        r.is_ok() == list_check(
            old(reader).data@,
            old(reader).offset as int,
            attributes_count as int,
            utf8_entries(constant_pool@),
        ) is Ok,
        r matches Ok(v) ==> {
            &&& list_values(
                old(reader).data@,
                old(reader).offset as int,
                attributes_count as int,
                utf8_entries(constant_pool@),
                v@,
            )
            &&& list_check(
                old(reader).data@,
                old(reader).offset as int,
                attributes_count as int,
                utf8_entries(constant_pool@),
            ) == Ok::<int, JvmError>(final(reader).offset as int)
        },
        r matches Err(e) ==> list_check(
            old(reader).data@,
            old(reader).offset as int,
            attributes_count as int,
            utf8_entries(constant_pool@),
        ) == Err::<int, JvmError>(e),
    decreases old(reader).data@.len(), 1int, attributes_count,
{
    let ghost d = reader.data@;
    let ghost p = reader.offset as int;
    let ghost pool = utf8_entries(constant_pool@);
    let mut attributes: Vec<Attribute> = Vec::new();
    let mut i: u16 = 0;
    while i < attributes_count
        invariant
            reader.wf(),
            reader.data@ == d,
            d == old(reader).data@,
            p == old(reader).offset as int,
            pool == utf8_entries(constant_pool@),
            i <= attributes_count,
            list_check(d, p, i as int, pool) == Ok::<int, JvmError>(reader.offset as int),
            list_values(d, p, i as int, pool, attributes@),
        decreases attributes_count - i,
    {
        let ghost before = attributes@;
        match Attribute::new(reader, constant_pool) {
            Ok(Some(a)) => {
                attributes.push(a);
                assert(attributes@.drop_last() =~= before);
            },
            Ok(None) => {},
            Err(e) => {
                proof {
                    lemma_list_check_fails_on(d, p, i + 1, attributes_count as int, pool, e);
                }
                return Err(e);
            },
        }
        i = i + 1;
    }
    Ok(attributes)
}

impl Attribute {
    /// Decodes the attribute at the reader's offset: a name index, a
    /// declared length, and a body of that length, read by the rules of the
    /// attribute's name. An attribute of another name is skipped (`None`).
    pub fn new(reader: &mut BytecodeReader, constant_pool: &Vec<Constant>) -> (r: Result<
        Option<Attribute>,
        JvmError,
    >)
        requires
            old(reader).wf(),
        ensures
            final(reader).wf(),
            final(reader).data@ == old(reader).data@,
            r.is_ok() == attr_check(
                old(reader).data@,
                old(reader).offset as int,
                utf8_entries(constant_pool@),
            ) is Ok,
            r matches Ok(x) ==> {
                &&& final(reader).offset == old(reader).offset + 6 + attr_len(
                    old(reader).data@,
                    old(reader).offset as int,
                )
                &&& x is Some == attr_known(
                    old(reader).data@,
                    old(reader).offset as int,
                    utf8_entries(constant_pool@),
                )
                &&& x matches Some(a) ==> attr_value(
                    old(reader).data@,
                    old(reader).offset as int,
                    utf8_entries(constant_pool@),
                    a,
                )
            },
            r matches Err(e) ==> attr_check(
                old(reader).data@,
                old(reader).offset as int,
                utf8_entries(constant_pool@),
            ) == Err::<(), JvmError>(e),
        decreases old(reader).data@.len(), 0int, 0int,
    {
        let ghost d = reader.data@;
        let ghost p = reader.offset as int;
        let attribute_name_index = reader.u16()?;
        let attribute_length = reader.u32()?;
        let body = reader.read_as_vec(attribute_length as usize)?;
        assert(body@ == attr_body(d, p));
        let attribute_name = Constant::read_utf8_data(constant_pool, attribute_name_index)?;
        let kind = name_kind(&attribute_name);
        let mut body_reader = BytecodeReader::new(body);
        if kind == 0 {
            return Ok(None);
        }
        let a = Attribute::decode_body(kind, &mut body_reader, constant_pool)?;
        Ok(Some(a))
    }

    /// Decodes the body of an attribute of a known `kind`, which must take
    /// up the whole of the reader's buffer.
    fn decode_body(kind: u8, reader: &mut BytecodeReader, constant_pool: &Vec<Constant>) -> (r:
        Result<Attribute, JvmError>)
        requires
            old(reader).wf(),
            old(reader).offset == 0,
            1 <= kind <= 5,
        ensures
            r.is_ok() == body_check(kind as int, old(reader).data@, utf8_entries(constant_pool@)) is Ok,
            r matches Err(e) ==> body_check(kind as int, old(reader).data@, utf8_entries(constant_pool@))
                == Err::<(), JvmError>(e),
            r matches Ok(a) ==> body_value(kind as int, old(reader).data@, utf8_entries(constant_pool@), a),
        decreases old(reader).data@.len(), 3int, 0int,
    {
        let ghost b = reader.data@;
        let size = reader.size;
        if kind == 2 {
            let x = decode_code(reader, constant_pool)?;
            return Ok(Attribute::Code(x));
        }
        if size < 2 {
            return Err(JvmError::AttributeLengthMismatch);
        }
        let first = reader.u16()?;
        if kind == 1 || kind == 4 {
            if size != 2 {
                return Err(JvmError::AttributeLengthMismatch);
            }
            if kind == 1 {
                return Ok(Attribute::ConstantValue(AttributeConstantValue { constantvalue_index: first }));
            }
            let sourcefile = Constant::read_utf8_data(constant_pool, first)?;
            return Ok(Attribute::SourceFile(AttributeSourceFile { sourcefile }));
        }
        if kind == 3 {
            if size - 2 != 4 * (first as usize) {
                return Err(JvmError::AttributeLengthMismatch);
            }
            let mut line_number_table: Vec<Vec<u16>> = Vec::new();
            let mut i: u16 = 0;
            while i < first
                invariant
                    reader.wf(),
                    reader.data@ == b,
                    kind == 3,
                    b == old(reader).data@,
                    b.len() == 2 + 4 * (first as int),
                    first == be_at(b, 0, 2),
                    i <= first,
                    reader.offset == 2 + 4 * (i as int),
                    line_number_table@.len() == i,
                    forall|j: int|
                        0 <= j < i ==> line_number_at(
                            b,
                            2 + 4 * j,
                            #[trigger] line_number_table@[j],
                        ),
                decreases first - i,
            {
                let start_pc = reader.u16()?;
                let line_number = reader.u16()?;
                let mut entry: Vec<u16> = Vec::new();
                entry.push(start_pc);
                entry.push(line_number);
                line_number_table.push(entry);
                i = i + 1;
            }
            return Ok(Attribute::LineNumberTable(AttributeLineNumberTable { line_number_table }));
        }
        if size - 2 != 10 * (first as usize) {
            return Err(JvmError::AttributeLengthMismatch);
        }
        let mut local_variable_table: Vec<LocalVariableInfo> = Vec::new();
        let mut i: u16 = 0;
        while i < first
            invariant
                reader.wf(),
                reader.data@ == b,
                kind == 5,
                b == old(reader).data@,
                b.len() == 2 + 10 * (first as int),
                first == be_at(b, 0, 2),
                i <= first,
                reader.offset == 2 + 10 * (i as int),
                local_variable_table@.len() == i,
                forall|j: int|
                    0 <= j < i ==> local_variable_at(
                        b,
                        2 + 10 * j,
                        utf8_entries(constant_pool@),
                        #[trigger] local_variable_table@[j],
                    ),
                lvt_check(b, i as int, utf8_entries(constant_pool@)) == Ok::<(), JvmError>(()),
            decreases first - i,
        {
            let start_pc = reader.u16()?;
            let length = reader.u16()?;
            let name_index = reader.u16()?;
            let descriptor_index = reader.u16()?;
            let index = reader.u16()?;
            let name = match Constant::read_utf8_data(constant_pool, name_index) {
                Ok(t) => t,
                Err(e) => {
                    proof {
                        lemma_lvt_check_fails_on(b, i + 1, first as int, utf8_entries(constant_pool@), e);
                    }
                    return Err(e);
                },
            };
            let descriptor = match Constant::read_utf8_data(constant_pool, descriptor_index) {
                Ok(t) => t,
                Err(e) => {
                    proof {
                        lemma_lvt_check_fails_on(b, i + 1, first as int, utf8_entries(constant_pool@), e);
                    }
                    return Err(e);
                },
            };
            local_variable_table.push(
                LocalVariableInfo { start_pc, length, name, descriptor, index },
            );
            i = i + 1;
        }
        Ok(Attribute::LocalVariableTable(AttributeLocalVariableTable { local_variable_table }))
    }
}

/// Decodes a Code body, which must take up the whole of the reader's buffer:
/// the bounds, the bytecode, the exception table, then the nested attributes.
fn decode_code(reader: &mut BytecodeReader, constant_pool: &Vec<Constant>) -> (r: Result<
    AttributeCode,
    JvmError,
>)
    requires
        old(reader).wf(),
        old(reader).offset == 0,
    ensures
        r.is_ok() == body_check(2, old(reader).data@, utf8_entries(constant_pool@)) is Ok,
        r matches Err(e) ==> body_check(2, old(reader).data@, utf8_entries(constant_pool@)) == Err::<
            (),
            JvmError,
        >(e),
        r matches Ok(x) ==> body_value(2, old(reader).data@, utf8_entries(constant_pool@), Attribute::Code(x)),
    decreases old(reader).data@.len(), 2int, 0int,
{
    let ghost b = reader.data@;
    let size = reader.size;
    if size < 8 {
        return Err(JvmError::AttributeLengthMismatch);
    }
    let max_stack = reader.u16()?;
    let max_locals = reader.u16()?;
    let code_length = reader.u32()?;
    if code_length as usize > size - 8 || size - 8 - (code_length as usize) < 2 {
        return Err(JvmError::AttributeLengthMismatch);
    }
    let code = reader.read_as_vec(code_length as usize)?;
    let exception_table_length = reader.u16()?;
    if 8 * (exception_table_length as usize) + 2 > size - reader.offset {
        return Err(JvmError::AttributeLengthMismatch);
    }
    let ghost start = reader.offset as int;
    assert(start == code_table_start(b));
    let mut exception_table: Vec<ExceptionInfo> = Vec::new();
    let mut i: u16 = 0;
    while i < exception_table_length
        invariant
            reader.wf(),
            reader.data@ == b,
            b == old(reader).data@,
            exception_table_length == code_table_len(b),
            start == code_table_start(b),
            start + 8 * (exception_table_length as int) + 2 <= b.len(),
            i <= exception_table_length,
            reader.offset == start + 8 * (i as int),
            exception_table@.len() == i,
            forall|j: int|
                0 <= j < i ==> exception_at(b, start + 8 * j, #[trigger] exception_table@[j]),
        decreases exception_table_length - i,
    {
        let start_pc = reader.u16()?;
        let end_pc = reader.u16()?;
        let handler_pc = reader.u16()?;
        let catch_type = reader.u16()?;
        exception_table.push(ExceptionInfo { start_pc, end_pc, handler_pc, catch_type });
        i = i + 1;
    }
    let attributes_count = reader.u16()?;
    let attributes = read_attributes(reader, attributes_count, constant_pool)?;
    if reader.offset != size {
        return Err(JvmError::AttributeLengthMismatch);
    }
    Ok(AttributeCode { max_stack, max_locals, code, exception_table, attributes })
}

} // verus!
