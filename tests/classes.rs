use rjvm::attribute::Attribute;
use rjvm::class::Class;
use rjvm::engine::{code2name, Instruction, Thread, MAX_FRAMES};
use rjvm::error::{ErrorKind, JvmError};
use rjvm::loader::ClassLoader;

struct ClassBuilder {
    pool: Vec<Vec<u8>>,
    this_class: u16,
    super_class: u16,
    interfaces: Vec<u16>,
    methods: Vec<Vec<u8>>,
    attributes: Vec<Vec<u8>>,
}

fn be16(v: u16) -> Vec<u8> {
    v.to_be_bytes().to_vec()
}

fn be32(v: u32) -> Vec<u8> {
    v.to_be_bytes().to_vec()
}

impl ClassBuilder {
    fn new(name: &str) -> ClassBuilder {
        let mut b = ClassBuilder {
            pool: Vec::new(),
            this_class: 0,
            super_class: 0,
            interfaces: Vec::new(),
            methods: Vec::new(),
            attributes: Vec::new(),
        };
        let n = b.utf8(name);
        b.this_class = b.class(n);
        let o = b.utf8("java/lang/Object");
        b.super_class = b.class(o);
        b
    }

    fn add(&mut self, entry: Vec<u8>) -> u16 {
        self.pool.push(entry);
        self.pool.len() as u16
    }

    fn utf8(&mut self, s: &str) -> u16 {
        let mut e = vec![1];
        e.extend(be16(s.len() as u16));
        e.extend(s.as_bytes());
        self.add(e)
    }

    fn class(&mut self, name: u16) -> u16 {
        let mut e = vec![7];
        e.extend(be16(name));
        self.add(e)
    }

    fn string(&mut self, s: u16) -> u16 {
        let mut e = vec![8];
        e.extend(be16(s));
        self.add(e)
    }

    fn integer(&mut self, v: i32) -> u16 {
        let mut e = vec![3];
        e.extend(v.to_be_bytes());
        self.add(e)
    }

    fn methodref(&mut self, class_name: &str, name: &str, descriptor: &str) -> u16 {
        let cn = self.utf8(class_name);
        let c = self.class(cn);
        let n = self.utf8(name);
        let d = self.utf8(descriptor);
        let mut nt = vec![12];
        nt.extend(be16(n));
        nt.extend(be16(d));
        let nt = self.add(nt);
        let mut e = vec![10];
        e.extend(be16(c));
        e.extend(be16(nt));
        self.add(e)
    }

    fn attribute(&mut self, name: &str, body: Vec<u8>) -> Vec<u8> {
        let n = self.utf8(name);
        let mut a = be16(n);
        a.extend(be32(body.len() as u32));
        a.extend(body);
        a
    }

    fn code_attribute(&mut self, max_stack: u16, code: &[u8], nested: Vec<Vec<u8>>) -> Vec<u8> {
        let mut body = be16(max_stack);
        body.extend(be16(1));
        body.extend(be32(code.len() as u32));
        body.extend(code);
        body.extend(be16(0));
        body.extend(be16(nested.len() as u16));
        for a in nested {
            body.extend(a);
        }
        self.attribute("Code", body)
    }

    fn method_with(&mut self, name: &str, descriptor: &str, attributes: Vec<Vec<u8>>) {
        let n = self.utf8(name);
        let d = self.utf8(descriptor);
        let mut m = be16(0x0009);
        m.extend(be16(n));
        m.extend(be16(d));
        m.extend(be16(attributes.len() as u16));
        for a in attributes {
            m.extend(a);
        }
        self.methods.push(m);
    }

    fn method(&mut self, name: &str, max_stack: u16, code: &[u8]) {
        let c = self.code_attribute(max_stack, code, Vec::new());
        self.method_with(name, "()V", vec![c]);
    }

    fn build(&self) -> Vec<u8> {
        let mut out = vec![0xCA, 0xFE, 0xBA, 0xBE, 0, 0, 0, 52];
        out.extend(be16(self.pool.len() as u16 + 1));
        for e in &self.pool {
            out.extend(e);
        }
        out.extend(be16(0x0021));
        out.extend(be16(self.this_class));
        out.extend(be16(self.super_class));
        out.extend(be16(self.interfaces.len() as u16));
        for i in &self.interfaces {
            out.extend(be16(*i));
        }
        out.extend(be16(0));
        out.extend(be16(self.methods.len() as u16));
        for m in &self.methods {
            out.extend(m);
        }
        out.extend(be16(self.attributes.len() as u16));
        for a in &self.attributes {
            out.extend(a);
        }
        out
    }
}

fn thread_over(builders: Vec<&ClassBuilder>) -> Thread {
    let mut loader = ClassLoader::new();
    for b in builders {
        loader.add_class(Class::new(b.build()).unwrap());
    }
    Thread::new(loader)
}

#[test]
fn short_buffer_is_not_read_as_magic() {
    let e = Class::new(vec![0xCA, 0xFE, 0xBA]).err().unwrap();
    assert_eq!(e, JvmError::OutOfBounds { offset: 0, wanted: 4 });
    assert_eq!(e.kind(), ErrorKind::Format);
    assert_eq!(Class::new(vec![]).err(), Some(JvmError::OutOfBounds { offset: 0, wanted: 4 }));
}

#[test]
fn wrong_signature_is_not_a_class_file() {
    assert_eq!(Class::new(vec![0xCA, 0xFE, 0xBA, 0xBF, 0, 0]).err(), Some(JvmError::NotAClassFile));
}

#[test]
fn decodes_a_class_file() {
    let mut b = ClassBuilder::new("demo/Main");
    b.method("main", 2, &[0x03, 0xB1]);
    let sf = b.utf8("Main.java");
    let source = b.attribute("SourceFile", be16(sf));
    b.attributes.push(source);
    let c = Class::new(b.build()).unwrap();
    assert_eq!(c.major_version, 52);
    assert_eq!(c.minor_version, 0);
    assert_eq!(c.access_flags, 0x0021);
    assert_eq!(c.this_class, "demo/Main");
    assert_eq!(c.super_class, "java/lang/Object");
    assert_eq!(c.constant_pool.len(), b.pool.len());
    assert_eq!(c.methods.len(), 1);
    assert_eq!(c.methods[0].name, "main");
    assert_eq!(c.methods[0].descriptor, "()V");
    match &c.methods[0].attributes[0] {
        Attribute::Code(code) => {
            assert_eq!(code.code, vec![0x03, 0xB1]);
            assert_eq!(code.max_stack, 2);
            assert_eq!(code.max_locals, 1);
        }
        _ => panic!("expected a Code attribute"),
    }
    match &c.attributes[0] {
        Attribute::SourceFile(s) => assert_eq!(s.sourcefile, "Main.java"),
        _ => panic!("expected a SourceFile attribute"),
    }
}

#[test]
fn nested_attributes_of_code_are_decoded() {
    let mut b = ClassBuilder::new("demo/Lines");
    let mut lnt = be16(2);
    lnt.extend([0, 0, 0, 7, 0, 1, 0, 8]);
    let lnt = b.attribute("LineNumberTable", lnt);
    let n = b.utf8("x");
    let d = b.utf8("I");
    let mut lvt = be16(1);
    lvt.extend([0, 0, 0, 2]);
    lvt.extend(be16(n));
    lvt.extend(be16(d));
    lvt.extend(be16(0));
    let lvt = b.attribute("LocalVariableTable", lvt);
    let skipped = b.attribute("StackMapTable", vec![1, 2, 3]);
    let code = b.code_attribute(1, &[0xB1], vec![lnt, skipped, lvt]);
    b.method_with("f", "()V", vec![code]);
    let c = Class::new(b.build()).unwrap();
    match &c.methods[0].attributes[0] {
        Attribute::Code(code) => {
            assert_eq!(code.attributes.len(), 2);
            match &code.attributes[0] {
                Attribute::LineNumberTable(t) => {
                    assert_eq!(t.line_number_table.len(), 2);
                    assert_eq!(t.line_number_table[1], vec![1, 8]);
                }
                _ => panic!("expected a LineNumberTable"),
            }
            match &code.attributes[1] {
                Attribute::LocalVariableTable(t) => {
                    assert_eq!(t.local_variable_table[0].name, "x");
                    assert_eq!(t.local_variable_table[0].descriptor, "I");
                    assert_eq!(t.local_variable_table[0].length, 2);
                }
                _ => panic!("expected a LocalVariableTable"),
            }
        }
        _ => panic!("expected a Code attribute"),
    }
}

#[test]
fn interfaces_are_kept_as_indices() {
    let mut b = ClassBuilder::new("demo/Impl");
    let n = b.utf8("demo/Iface");
    let iface = b.class(n);
    b.interfaces = vec![iface, 0x0102];
    let c = Class::new(b.build()).unwrap();
    assert_eq!(c.interfaces, vec![iface, 0x0102]);
}

#[test]
fn truncation_after_the_pool_is_out_of_bounds() {
    let b = ClassBuilder::new("demo/Main");
    let bytes = b.build();
    let pool_end = 10 + b.pool.iter().map(|e| e.len()).sum::<usize>();
    let cut = bytes[..pool_end + 3].to_vec();
    assert_eq!(
        Class::new(cut).err(),
        Some(JvmError::OutOfBounds { offset: pool_end + 2, wanted: 2 })
    );
    let mut b = ClassBuilder::new("demo/Main");
    b.interfaces = vec![1, 2, 3];
    let bytes = b.build();
    let cut = bytes[..pool_end + 10].to_vec();
    assert_eq!(
        Class::new(cut).err(),
        Some(JvmError::OutOfBounds { offset: pool_end + 8, wanted: 6 })
    );
}

#[test]
fn attribute_body_of_wrong_length_fails() {
    let mut b = ClassBuilder::new("demo/Bad");
    let cv = b.attribute("ConstantValue", vec![0, 1, 2]);
    b.attributes.push(cv);
    assert_eq!(Class::new(b.build()).err(), Some(JvmError::AttributeLengthMismatch));
}

#[test]
fn this_class_must_name_a_class_entry() {
    let mut b = ClassBuilder::new("demo/Main");
    b.this_class = 1;
    let e = Class::new(b.build()).err().unwrap();
    assert_eq!(e, JvmError::WrongConstantKind { index: 1 });
    assert_eq!(e.kind(), ErrorKind::Resolution);
}

#[test]
fn super_class_index_zero_is_out_of_range() {
    let mut b = ClassBuilder::new("demo/Main");
    b.super_class = 0;
    let e = Class::new(b.build()).err().unwrap();
    assert_eq!(e, JvmError::IndexOutOfRange { index: 0 });
    assert_eq!(e.kind(), ErrorKind::Resolution);
}

#[test]
fn class_entry_must_point_at_utf8() {
    let mut b = ClassBuilder::new("demo/Main");
    let bogus = b.class(2);
    b.super_class = bogus;
    assert_eq!(
        Class::new(b.build()).err(),
        Some(JvmError::WrongConstantKind { index: 2 })
    );
}

#[test]
fn push_then_return_runs_one_frame() {
    let mut b = ClassBuilder::new("Main");
    b.method("main", 1, &[0x03, 0xB1]);
    let mut t = thread_over(vec![&b]);
    t.invoke_from_method_name(String::from("Main"), String::from("main")).unwrap();
    assert_eq!(t.stacks.len(), 1);
    assert_eq!(t.stacks[0].pc, 0);
    assert_eq!(t.exec(), Ok(0x03));
    assert_eq!(t.stacks[0].operand_stack, vec![Some(0)]);
    assert_eq!(t.exec(), Ok(0xB1));
    assert_eq!(t.stacks[0].pc, t.stacks[0].code.len());
    let out = t.run();
    assert_eq!(out.result, Ok(()));
    assert_eq!(out.trace, Vec::<u8>::new());
    assert!(t.stacks.is_empty());
}

#[test]
fn invoke_and_run_reports_the_opcodes() {
    let mut b = ClassBuilder::new("Main");
    b.method("main", 1, &[0x03, 0xB1]);
    let mut t = thread_over(vec![&b]);
    let out = t.invoke_and_run(String::from("Main"), String::from("main"), &vec![]);
    assert_eq!(out.result, Ok(()));
    assert_eq!(out.trace, vec![0x03, 0xB1]);
    assert!(t.stacks.is_empty());
}

#[test]
fn invokestatic_to_missing_class_keeps_caller() {
    let mut b = ClassBuilder::new("Main");
    let m = b.methodref("Missing", "foo", "()V");
    let [hi, lo] = m.to_be_bytes();
    b.method("main", 1, &[0xB8, hi, lo, 0xB1]);
    let mut t = thread_over(vec![&b]);
    let out = t.invoke_and_run(String::from("Main"), String::from("main"), &vec![]);
    assert_eq!(out.result, Err(JvmError::ClassNotFound));
    assert_eq!(out.result.unwrap_err().kind(), ErrorKind::Resolution);
    assert_eq!(t.stacks.len(), 1);
    assert_eq!(t.stacks[0].class_name, "Main");
}

#[test]
fn ldc_of_a_string_is_the_wrong_kind() {
    let mut b = ClassBuilder::new("Main");
    let text = b.utf8("hello");
    let s = b.string(text);
    b.method("main", 1, &[0x12, s as u8, 0xB1]);
    let mut t = thread_over(vec![&b]);
    let out = t.invoke_and_run(String::from("Main"), String::from("main"), &vec![]);
    assert_eq!(out.result, Err(JvmError::WrongConstantKind { index: s as usize }));
    assert_eq!(out.result.unwrap_err().kind(), ErrorKind::Resolution);
}

#[test]
fn ldc_of_an_integer_pushes_it() {
    let mut b = ClassBuilder::new("Main");
    let i = b.integer(-7);
    b.method("main", 1, &[0x12, i as u8]);
    let mut t = thread_over(vec![&b]);
    t.invoke_from_method_name(String::from("Main"), String::from("main")).unwrap();
    assert_eq!(t.exec(), Ok(0x12));
    assert_eq!(t.stacks[0].operand_stack, vec![Some((-7i32) as u32)]);
}

#[test]
fn same_invocation_twice_runs_the_same() {
    let mut callee = ClassBuilder::new("pkg/Util");
    callee.method("helper", 2, &[0x10, 0xFE, 0x11, 0x80, 0x00, 0xB1]);
    let mut main = ClassBuilder::new("pkg/Main");
    let m = main.methodref("pkg/Util", "helper", "()V");
    let [hi, lo] = m.to_be_bytes();
    main.method("main", 1, &[0x02, 0xB8, hi, lo, 0x00, 0xAC]);
    let mut outs = Vec::new();
    for _ in 0..2 {
        let mut t = thread_over(vec![&main, &callee]);
        let out = t.invoke_and_run(String::from("pkg.Main"), String::from("main"), &vec![]);
        outs.push((out.trace, out.result));
    }
    assert_eq!(outs[0], outs[1]);
    assert_eq!(outs[0].0, vec![0x02, 0xB8, 0x10, 0x11, 0xB1, 0x00, 0xAC]);
    assert_eq!(outs[0].1, Ok(()));
}

#[test]
fn immediates_are_sign_extended() {
    let mut b = ClassBuilder::new("Main");
    b.method("main", 3, &[0x02, 0x10, 0xFE, 0x11, 0x80, 0x00]);
    let mut t = thread_over(vec![&b]);
    t.invoke_from_method_name(String::from("Main"), String::from("main")).unwrap();
    for _ in 0..3 {
        t.exec().unwrap();
        assert!(t.stacks[0].pc <= t.stacks[0].code.len());
    }
    assert_eq!(
        t.stacks[0].operand_stack,
        vec![Some(0xFFFF_FFFF), Some(0xFFFF_FFFE), Some(0xFFFF_8000)]
    );
}

#[test]
fn operand_stack_is_bounded_by_max_stack() {
    let mut b = ClassBuilder::new("Main");
    b.method("main", 1, &[0x04, 0x01]);
    let mut t = thread_over(vec![&b]);
    let out = t.invoke_and_run(String::from("Main"), String::from("main"), &vec![]);
    assert_eq!(out.trace, vec![0x04]);
    assert_eq!(out.result, Err(JvmError::OperandStackOverflow));
    assert_eq!(out.result.unwrap_err().kind(), ErrorKind::Capacity);
}

#[test]
fn unsupported_opcode_is_fatal() {
    let mut b = ClassBuilder::new("Main");
    b.method("main", 1, &[0x00, 0x60]);
    let mut t = thread_over(vec![&b]);
    let out = t.invoke_and_run(String::from("Main"), String::from("main"), &vec![]);
    assert_eq!(out.trace, vec![0x00]);
    assert_eq!(out.result, Err(JvmError::UnknownOpcode { opcode: 0x60 }));
    assert_eq!(t.stacks[0].pc, 1);
}

#[test]
fn truncated_immediate_is_fatal() {
    let mut b = ClassBuilder::new("Main");
    b.method("main", 1, &[0x11, 0x01]);
    let mut t = thread_over(vec![&b]);
    let out = t.invoke_and_run(String::from("Main"), String::from("main"), &vec![]);
    assert_eq!(out.result, Err(JvmError::TruncatedInstruction { pc: 0 }));
}

#[test]
fn unbounded_recursion_hits_the_frame_limit() {
    let mut b = ClassBuilder::new("Main");
    let m = b.methodref("Main", "main", "()V");
    let [hi, lo] = m.to_be_bytes();
    b.method("main", 1, &[0xB8, hi, lo]);
    let mut t = thread_over(vec![&b]);
    let out = t.invoke_and_run(String::from("Main"), String::from("main"), &vec![]);
    assert_eq!(out.result, Err(JvmError::CallStackOverflow));
    assert_eq!(t.stacks.len(), MAX_FRAMES);
    assert_eq!(out.trace.len(), MAX_FRAMES - 1);
}

#[test]
fn missing_method_or_class() {
    let mut b = ClassBuilder::new("Main");
    b.method("main", 1, &[0xB1]);
    b.method_with("abstractish", "()V", vec![]);
    let mut t = thread_over(vec![&b]);
    assert_eq!(
        t.invoke_from_method_name(String::from("Main"), String::from("other")),
        Err(JvmError::MethodNotFound)
    );
    assert_eq!(
        t.invoke_from_method_name(String::from("Main"), String::from("abstractish")),
        Err(JvmError::MethodNotFound)
    );
    assert_eq!(
        t.invoke_from_method_name(String::from("Other"), String::from("main")),
        Err(JvmError::ClassNotFound)
    );
    assert!(t.stacks.is_empty());
}

#[test]
fn dotted_class_names_are_normalised() {
    let mut b = ClassBuilder::new("a/b/Main");
    b.method("main", 1, &[0xB1]);
    let mut t = thread_over(vec![&b]);
    assert_eq!(t.invoke_from_method_name(String::from("a.b.Main"), String::from("main")), Ok(()));
    assert_eq!(t.stacks[0].class_name, "a/b/Main");
    let popped = t.pop_stacks();
    assert_eq!(popped.code, vec![0xB1]);
    assert!(t.stacks.is_empty());
}

#[test]
fn later_registration_shadows_earlier() {
    let mut first = ClassBuilder::new("Main");
    first.method("main", 1, &[0x00, 0xB1]);
    let mut second = ClassBuilder::new("Main");
    second.method("main", 1, &[0xB1]);
    let t = thread_over(vec![&first, &second]);
    let found = t.class_map.find_class(&String::from("Main")).unwrap();
    match &found.methods[0].attributes[0] {
        Attribute::Code(c) => assert_eq!(c.code, vec![0xB1]),
        _ => panic!("expected a Code attribute"),
    }
    assert!(t.class_map.find_class(&String::from("Other")).is_none());
}

#[test]
fn read_code_stops_at_the_end() {
    let mut b = ClassBuilder::new("Main");
    b.method("main", 1, &[0x00]);
    let mut t = thread_over(vec![&b]);
    t.invoke_from_method_name(String::from("Main"), String::from("main")).unwrap();
    let mut frame = t.pop_stacks();
    assert_eq!(frame.read_code(), Ok(0x00));
    assert_eq!(frame.pc, 1);
    assert_eq!(frame.read_code(), Err(JvmError::EndOfCode { pc: 1 }));
    assert_eq!(frame.pc, 1);
}

#[test]
fn decodes_instructions() {
    assert_eq!(Instruction::decode(&vec![0x08], 0), Ok((Instruction::Iconst(5), 1)));
    assert_eq!(Instruction::decode(&vec![0x00, 0x10, 0x80], 1), Ok((Instruction::Bipush(-128), 2)));
    assert_eq!(Instruction::decode(&vec![0xB8, 0x01, 0x02], 0), Ok((Instruction::Invokestatic(0x0102), 3)));
    assert_eq!(Instruction::decode(&vec![0x12], 0), Err(JvmError::TruncatedInstruction { pc: 0 }));
    assert_eq!(Instruction::decode(&vec![0xFF], 0), Err(JvmError::UnknownOpcode { opcode: 0xFF }));
}

#[test]
fn opcode_listing_names() {
    assert!(code2name(184).starts_with("invokestatic"));
    assert_eq!(code2name(16), "lload            :Load long from local variable");
    assert_eq!(code2name(4), "iconst_<1>       :Push int constant");
    for code in [2u8, 3, 6, 8, 17, 18, 22, 250] {
        assert_eq!(code2name(code), "!!!!! UNKNOW !!!!!");
    }
}
