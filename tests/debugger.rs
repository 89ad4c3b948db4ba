use thorin::command::{
    handle_line, parse_command, parse_u64, scope_tree_lines, split_words, stop_at, trim_hex_prefix, variable_lines, Command,
    NumberError, Reply, Stop,
};
use thorin::context::construct_context;
use thorin::controller::{next_state, ChildEvent, ChildState};
use thorin::dwarf::{
    construct_global_scope, construct_scope, get_types, locate_variables, process_variable, AttrValue, Attribute, Die,
    DwarfUnit, AT_DATA_MEMBER_LOCATION, AT_HIGH_PC, AT_LOCATION, AT_LOW_PC, AT_NAME, AT_TYPE, TAG_COMPILE_UNIT,
    TAG_FORMAL_PARAMETER, TAG_LEXICAL_BLOCK, TAG_MEMBER, TAG_POINTER_TYPE, TAG_STRUCTURE_TYPE, TAG_SUBPROGRAM,
    TAG_TYPEDEF, TAG_VARIABLE,
};
use thorin::location::{frame_offset, to_signed, UnitEncoding};
use thorin::primitive::{digits_text, format_values, primitive_of, Format, Primitive};
use thorin::program::{DerivedType, Scope, TypeTable, Variable};
use thorin::render::{render_read, render_variable, Line, Read};
use thorin::table::NameMap;

const TAG_BASE_TYPE: u16 = 0x24;

fn var(name: &str, offset: i64, ty: &str) -> Variable {
    Variable { name: name.to_string(), offset, ty_name: ty.to_string() }
}

fn scope(name: Option<&str>, vars: Vec<Variable>, scopes: Vec<Scope>, low_pc: u64, high_pc: u64) -> Scope {
    let mut variables = NameMap::new();
    for v in vars {
        variables.insert(v.name.clone(), v);
    }
    Scope { name: name.map(|n| n.to_string()), variables, scopes, low_pc, high_pc }
}

fn table(entries: Vec<DerivedType>) -> TypeTable {
    let mut t = NameMap::new();
    for e in entries {
        t.insert(e.name.clone(), e);
    }
    t
}

fn typedef(name: &str, base: &str) -> DerivedType {
    DerivedType { name: name.to_string(), base_type: base.to_string(), members: Vec::new() }
}

fn stop(vars: Vec<Variable>, rbp: u64) -> Stop {
    let root = scope(Some("root"), vars, Vec::new(), 0, u64::MAX);
    stop_at(&root, rbp, 0).0
}

fn texts(r: &Reply) -> Vec<String> {
    r.lines.iter().map(|l| l.text.clone()).collect()
}

fn reads(lines: &[Line]) -> Vec<Read> {
    lines.iter().filter_map(|l| l.read).collect()
}

const INT: Primitive = Primitive { width: 2, format: Format::Signed };
const UINT: Primitive = Primitive { width: 2, format: Format::Unsigned };

// Whole commands at a stop.

#[test]
fn print_int_reads_two_bytes() {
    let rbp = 0x7fff_0000_1000u64;
    let st = stop(vec![var("x", -4, "int")], rbp);
    let r = handle_line("print x", &st, &table(vec![]));
    assert!(!r.resume);
    assert_eq!(texts(&r), vec!["int x: ".to_string()]);
    let rd = r.lines[0].read.unwrap();
    assert_eq!(rd, Read { address: rbp - 4, prim: INT, count: 1 });
    // The two bytes at the variable's address are the low half of
    // 0x41424344 on a little-endian machine: 0x4344.
    let bytes = 0x41424344u32.to_le_bytes()[..2].to_vec();
    assert_eq!(format_values(rd.prim, &bytes, 1), Some(0x4344u16.to_string()));
    assert_eq!(format_values(rd.prim, &bytes, 1), Some("17220".to_string()));
}

#[test]
fn print_float_reads_four_bytes() {
    let st = stop(vec![var("pi", -8, "float")], 0x1000);
    let r = handle_line("print pi", &st, &table(vec![]));
    let rd = r.lines[0].read.unwrap();
    assert_eq!(rd, Read { address: 0x1000 - 8, prim: Primitive { width: 4, format: Format::Float }, count: 1 });
    let bytes = 3.14f32.to_le_bytes().to_vec();
    assert_eq!(format_values(rd.prim, &bytes, 1), None);
    let v = f32::from_le_bytes([bytes[0], bytes[1], bytes[2], bytes[3]]);
    assert_eq!(format!("{}", v), "3.14");
}

#[test]
fn print_struct_lists_members() {
    let point = DerivedType {
        name: "Point".to_string(),
        base_type: String::new(),
        members: vec![var("x", 0, "int"), var("y", 4, "int")],
    };
    let st = stop(vec![var("p", -16, "Point")], 0x2000);
    let r = handle_line("print p", &st, &table(vec![point]));
    assert_eq!(texts(&r), vec!["Point p: ".to_string(), "  int x: ".to_string(), "  int y: ".to_string()]);
    assert_eq!(r.lines[0].read, None);
    assert_eq!(r.lines[1].read, Some(Read { address: 0x2000 - 16, prim: INT, count: 1 }));
    assert_eq!(r.lines[2].read, Some(Read { address: 0x2000 - 12, prim: INT, count: 1 }));
    assert_eq!(format_values(INT, &7i16.to_le_bytes().to_vec(), 1), Some("7".to_string()));
    assert_eq!(format_values(INT, &9i16.to_le_bytes().to_vec(), 1), Some("9".to_string()));
}

#[test]
fn print_typedef_of_unsigned_long_long() {
    let st = stop(vec![var("v", -8, "u64")], 0x3000);
    let r = handle_line("print v", &st, &table(vec![typedef("u64", "unsigned long long")]));
    assert_eq!(texts(&r), vec!["u64 v: ".to_string(), "  unsigned long long v: ".to_string()]);
    let rd = r.lines[1].read.unwrap();
    assert_eq!(rd.prim, Primitive { width: 8, format: Format::Unsigned });
    let bytes = 0xDEADBEEFCAFEBABEu64.to_le_bytes().to_vec();
    assert_eq!(format_values(rd.prim, &bytes, 1), Some(0xDEADBEEFCAFEBABEu64.to_string()));
    assert_eq!(format_values(rd.prim, &bytes, 1), Some("16045690984503098046".to_string()));
}

#[test]
fn read_invalid_address_gives_a_list_of_four() {
    let st = stop(vec![], 0);
    let r = handle_line("read 0xDEADBEEF 4 unsigned", &st, &table(vec![]));
    assert!(!r.resume);
    assert_eq!(r.lines.len(), 1);
    let rd = r.lines[0].read.unwrap();
    assert_eq!(rd, Read { address: 0xDEADBEEF, prim: UINT, count: 4 });
    let zeros = vec![0u8; 8];
    assert_eq!(format_values(rd.prim, &zeros, 4), Some("[0, 0, 0, 0]".to_string()));
}

#[test]
fn help_then_exit_resumes() {
    let st = stop(vec![], 0);
    let types = table(vec![]);
    let h = handle_line("help", &st, &types);
    assert!(!h.resume);
    assert_eq!(h.lines.len(), 7);
    assert_eq!(h.lines[0].text, "Commands:");
    assert_eq!(h.lines[6].text, "  (exit|quit):                       Quit thorin.");
    let e = handle_line("exit", &st, &types);
    assert!(e.resume);
    assert!(e.lines.is_empty());
}

// The resolver.

fn nested_tree() -> Scope {
    let block = scope(None, vec![var("i", -20, "int")], vec![], 0x1010, 0x10);
    let main = scope(Some("main"), vec![var("x", -4, "int"), var("argc", -8, "int")], vec![block], 0x1000, 0x40);
    let other = scope(Some("helper"), vec![var("x", -12, "long")], vec![], 0x2000, 0x20);
    let cu = scope(Some("prog.c"), vec![var("x", 0, "char"), var("g", 16, "int")], vec![main, other], 0x1000, 0x2000);
    scope(Some("root"), vec![], vec![cu], 0, u64::MAX)
}

#[test]
fn chain_holds_only_scopes_containing_rip() {
    let root = nested_tree();
    let (_, names) = stop_at(&root, 0, 0x1018);
    assert_eq!(names, vec!["root", "prog.c", "main", "unnamed scope"]);
    let (_, names) = stop_at(&root, 0, 0x2005);
    assert_eq!(names, vec!["root", "prog.c", "helper"]);
    let (_, names) = stop_at(&root, 0, 0x10);
    assert_eq!(names, vec!["root"]);
    // The extent is inclusive: low_pc + high_pc itself is inside.
    let (_, names) = stop_at(&root, 0, 0x1040);
    assert_eq!(names, vec!["root", "prog.c", "main"]);
}

#[test]
fn inner_binding_shadows_outer() {
    let root = nested_tree();
    let (st, _) = stop_at(&root, 0, 0x1018);
    assert_eq!(st.variables.get("x").unwrap().offset, -4);
    assert_eq!(st.variables.get("g").unwrap().offset, 16);
    assert_eq!(st.variables.get("i").unwrap().offset, -20);
    let (st, _) = stop_at(&root, 0, 0x2001);
    assert_eq!(st.variables.get("x").unwrap().ty_name, "long");
    assert!(st.variables.get("i").is_none());
}

#[test]
fn construct_context_appends_to_what_is_there() {
    let root = nested_tree();
    let mut vars = NameMap::new();
    vars.insert("x".to_string(), var("x", 99, "double"));
    vars.insert("z".to_string(), var("z", 1, "char"));
    let mut names = vec!["before".to_string()];
    construct_context(&root, &mut vars, &mut names, 0x1005);
    assert_eq!(names, vec!["before", "root", "prog.c", "main"]);
    assert_eq!(vars.get("x").unwrap().offset, -4);
    assert_eq!(vars.get("z").unwrap().offset, 1);
}

#[test]
fn report_lines_indent_scopes_and_list_variables() {
    let root = nested_tree();
    let (st, names) = stop_at(&root, 0, 0x1018);
    assert_eq!(
        scope_tree_lines(&names),
        vec!["-> root", "  -> prog.c", "    -> main", "      -> unnamed scope"]
    );
    let listed = variable_lines(&st.variables);
    assert_eq!(listed.len(), 4);
    assert!(listed.contains(&"  x: int".to_string()));
    assert!(listed.contains(&"  i: int".to_string()));
}

// The interpreter.

#[test]
fn struct_members_are_read_at_their_offsets() {
    let s = DerivedType {
        name: "S".to_string(),
        base_type: String::new(),
        members: vec![var("a", 0, "char"), var("b", 8, "long long"), var("c", 16, "*")],
    };
    let types = table(vec![s]);
    let lines = render_variable("s", "S", 0x5000, &types);
    assert_eq!(
        reads(&lines),
        vec![
            Read { address: 0x5000, prim: Primitive { width: 1, format: Format::Signed }, count: 1 },
            Read { address: 0x5008, prim: Primitive { width: 8, format: Format::Signed }, count: 1 },
            Read { address: 0x5010, prim: Primitive { width: 8, format: Format::Pointer }, count: 1 },
        ]
    );
}

#[test]
fn nested_struct_is_indented_twice() {
    let inner = DerivedType { name: "In".to_string(), base_type: String::new(), members: vec![var("v", 2, "short")] };
    let outer = DerivedType { name: "Out".to_string(), base_type: String::new(), members: vec![var("i", 8, "In")] };
    let types = table(vec![inner, outer]);
    let lines = render_variable("o", "Out", 0x100, &types);
    let t: Vec<String> = lines.iter().map(|l| l.text.clone()).collect();
    assert_eq!(t, vec!["Out o: ", "  In i: ", "    short v: "]);
    assert_eq!(lines[2].read, Some(Read { address: 0x10a, prim: INT, count: 1 }));
}

#[test]
fn typedef_chain_reads_like_its_primitive() {
    let types = table(vec![typedef("A", "B"), typedef("B", "unsigned")]);
    let via = render_read(0x40, 3, "A", &types);
    let direct = render_read(0x40, 3, "unsigned", &types);
    assert_eq!(via.len(), 1);
    assert_eq!(via[0].read, direct[0].read);
    assert_eq!(via[0].read, Some(Read { address: 0x40, prim: UINT, count: 3 }));
    let shown = render_variable("a", "A", 0x40, &types);
    assert_eq!(shown.last().unwrap().read, Some(Read { address: 0x40, prim: UINT, count: 1 }));
    assert_eq!(shown.len(), 3);
}

#[test]
fn print_reads_like_read_at_frame_offset() {
    let types = table(vec![typedef("myint", "long")]);
    let st = stop(vec![var("v", -24, "myint")], 0x7000);
    let printed = handle_line("print v", &st, &types);
    let line = format!("read 0x{:x} 1 myint", 0x7000 - 24);
    let read = handle_line(&line, &st, &types);
    assert_eq!(printed.lines.last().unwrap().read, read.lines[0].read);
}

#[test]
fn read_one_struct_shows_its_members() {
    let point = DerivedType {
        name: "Point".to_string(),
        base_type: String::new(),
        members: vec![var("x", 0, "int"), var("y", 4, "int")],
    };
    let types = table(vec![point, typedef("Pt", "Point")]);
    let lines = render_read(0x2000, 1, "Pt", &types);
    let t: Vec<String> = lines.iter().map(|l| l.text.clone()).collect();
    assert_eq!(t, vec!["int x: ", "int y: "]);
    assert_eq!(
        reads(&lines),
        vec![Read { address: 0x2000, prim: INT, count: 1 }, Read { address: 0x2004, prim: INT, count: 1 }]
    );
    let st = stop(vec![var("p", -16, "Pt")], 0x2010);
    let printed = handle_line("print p", &st, &types);
    let read = handle_line("read 0x2000 1 Pt", &st, &types);
    assert_eq!(reads(&printed.lines), reads(&read.lines));
}

#[test]
fn malformed_commands_then_exit_resume() {
    let st = stop(vec![var("x", -4, "int")], 0x100);
    let types = table(vec![]);
    for l in ["", "   ", "frobnicate", "print", "read", "read 1 2", "read zz 1 int", "read 0x10 x int", "get nope"] {
        assert!(!handle_line(l, &st, &types).resume);
    }
    assert!(handle_line("exit", &st, &types).resume);
    assert!(handle_line("  quit  now", &st, &types).resume);
}

#[test]
fn unknown_and_struct_reads_are_reported() {
    let point = DerivedType { name: "P".to_string(), base_type: String::new(), members: vec![var("x", 0, "int")] };
    let types = table(vec![point]);
    assert_eq!(render_read(0x10, 2, "P", &types)[0].text, "cannot read structs yet");
    assert_eq!(render_read(0x10, 2, "P", &types)[0].read, None);
    assert_eq!(render_read(0x10, 1, "mystery", &types)[0].text, "unknown type");
    let lines = render_variable("m", "mystery", 0x10, &types);
    assert_eq!(lines[0].text, "mystery m: unknown type");
}

#[test]
fn cyclic_typedefs_stop() {
    let types = table(vec![typedef("A", "B"), typedef("B", "A")]);
    assert_eq!(render_read(0, 1, "A", &types)[0].text, "cyclic type");
    let lines = render_variable("a", "A", 0, &types);
    assert_eq!(lines.last().unwrap().text, "    A a: cyclic type");
}

#[test]
fn primitive_table_widths() {
    assert_eq!(primitive_of("int"), Some(INT));
    assert_eq!(primitive_of("unsigned int"), Some(UINT));
    assert_eq!(primitive_of("long"), Some(Primitive { width: 4, format: Format::Signed }));
    assert_eq!(primitive_of("long unsigned int"), Some(Primitive { width: 4, format: Format::Unsigned }));
    assert_eq!(primitive_of("long long signed int"), Some(Primitive { width: 8, format: Format::Signed }));
    assert_eq!(primitive_of("unsigned char"), Some(Primitive { width: 1, format: Format::Signed }));
    assert_eq!(primitive_of("double"), Some(Primitive { width: 8, format: Format::Float }));
    assert_eq!(primitive_of("*"), Some(Primitive { width: 8, format: Format::Pointer }));
    assert_eq!(primitive_of("Int"), None);
    assert_eq!(primitive_of(""), None);
}

#[test]
fn values_are_formatted_exactly() {
    let c = Primitive { width: 1, format: Format::Signed };
    assert_eq!(format_values(c, &vec![0xff], 1), Some("-1".to_string()));
    assert_eq!(format_values(c, &vec![0x41, 0x80, 0x7f], 3), Some("[65, -128, 127]".to_string()));
    let l = Primitive { width: 8, format: Format::Signed };
    assert_eq!(format_values(l, &i64::MIN.to_le_bytes().to_vec(), 1), Some("-9223372036854775808".to_string()));
    let p = Primitive { width: 8, format: Format::Pointer };
    assert_eq!(format_values(p, &0x7ffd1234u64.to_le_bytes().to_vec(), 1), Some("0x7ffd1234".to_string()));
    assert_eq!(format_values(p, &vec![0u8; 8], 1), Some("0x0".to_string()));
    let mut two = 16u64.to_le_bytes().to_vec();
    two.extend_from_slice(&255u64.to_le_bytes());
    assert_eq!(format_values(p, &two, 2), Some("[0x10, 0xff]".to_string()));
    assert_eq!(format_values(UINT, &vec![], 0), Some("[]".to_string()));
    assert_eq!(format_values(UINT, &vec![0xff, 0xff], 1), Some("65535".to_string()));
    assert_eq!(digits_text(0, 10), "0");
    assert_eq!(digits_text(u64::MAX, 16), "ffffffffffffffff");
}

// The shell's commands.

#[test]
fn words_are_split_on_spaces() {
    assert_eq!(split_words("  read\t0x10  4 int \n"), vec!["read", "0x10", "4", "int"]);
    assert!(split_words("").is_empty());
    assert!(split_words(" \t ").is_empty());
}

#[test]
fn numbers_are_read_as_std_does() {
    assert_eq!(parse_u64("ff", 16), Ok(255));
    assert_eq!(parse_u64("FF", 16), Ok(255));
    assert_eq!(parse_u64("+10", 10), Ok(10));
    assert_eq!(parse_u64("", 10), Err(NumberError::Empty));
    assert_eq!(parse_u64("+", 10), Err(NumberError::InvalidDigit));
    assert_eq!(parse_u64("-1", 10), Err(NumberError::InvalidDigit));
    assert_eq!(parse_u64("1a", 10), Err(NumberError::InvalidDigit));
    assert_eq!(parse_u64("ffffffffffffffff", 16), Ok(u64::MAX));
    assert_eq!(parse_u64("10000000000000000", 16), Err(NumberError::Overflow));
    assert_eq!(parse_u64("18446744073709551616", 10), Err(NumberError::Overflow));
    assert_eq!(trim_hex_prefix("0x0x1f"), "1f");
    assert_eq!(trim_hex_prefix("1f"), "1f");
}

#[test]
fn read_command_parses_its_arguments() {
    match parse_command("read 0x0x10 2 char") {
        Command::Read { address, count, ty } => {
            assert_eq!(address, 0x10);
            assert_eq!(count, 2);
            assert_eq!(ty, "char");
        },
        _ => panic!("expected a read"),
    }
    assert!(matches!(parse_command("read 0x 1 int"), Command::BadAddress { error: NumberError::Empty }));
    assert!(matches!(parse_command("read 10 -1 int"), Command::BadCount { error: NumberError::InvalidDigit }));
    assert!(matches!(parse_command("show"), Command::MissingName { .. }));
    assert!(matches!(parse_command(""), Command::Empty));
}

#[test]
fn command_errors_are_reported() {
    let st = stop(vec![], 0);
    let types = table(vec![]);
    assert_eq!(
        texts(&handle_line("print", &st, &types)),
        vec!["command 'print' expects at least one argument", "Usage: print <variable-name>"]
    );
    assert_eq!(
        texts(&handle_line("read 1", &st, &types)),
        vec!["command 'read' expects at least three arguments", "Usage: read <address> <count> <type>"]
    );
    assert_eq!(
        texts(&handle_line("read xyz 1 int", &st, &types)),
        vec!["error parsing address: invalid digit found in string"]
    );
    assert_eq!(
        texts(&handle_line("read 0x 1 int", &st, &types)),
        vec!["error parsing address: cannot parse integer from empty string"]
    );
    assert_eq!(
        texts(&handle_line("read 1 99999999999999999999 int", &st, &types)),
        vec!["error parsing count: number too large to fit in target type"]
    );
    assert_eq!(texts(&handle_line("jump", &st, &types)), vec!["unknown command 'jump'"]);
    assert_eq!(texts(&handle_line("get y", &st, &types)), vec!["unrecognized variable 'y'."]);
    assert!(handle_line("", &st, &types).lines.is_empty());
}

// The model builder.

fn attr(name: u16, value: AttrValue) -> Attribute {
    Attribute { name, value }
}

fn die(offset: u64, tag: u16, attrs: Vec<Attribute>, children: Vec<Die>) -> Die {
    Die { offset, tag, attrs, children }
}

fn text(s: &str) -> AttrValue {
    AttrValue::Text(s.to_string())
}

const ENC: UnitEncoding = UnitEncoding { address_size: 8, dwarf64: false, version: 4 };

fn sample_unit() -> DwarfUnit {
    let int_type = die(0x30, TAG_BASE_TYPE, vec![attr(AT_NAME, text("int"))], vec![]);
    let ptr_type = die(0x40, TAG_POINTER_TYPE, vec![attr(AT_TYPE, AttrValue::UnitRef(0x30))], vec![]);
    let point = die(
        0x50,
        TAG_STRUCTURE_TYPE,
        vec![attr(AT_NAME, text("Point"))],
        vec![
            die(0x58, TAG_MEMBER, vec![attr(AT_NAME, text("x")), attr(AT_TYPE, AttrValue::UnitRef(0x30)), attr(AT_DATA_MEMBER_LOCATION, AttrValue::Udata(0))], vec![]),
            die(0x60, TAG_MEMBER, vec![attr(AT_NAME, text("y")), attr(AT_TYPE, AttrValue::UnitRef(0x30)), attr(AT_DATA_MEMBER_LOCATION, AttrValue::Udata(4))], vec![]),
        ],
    );
    let alias = die(0x70, TAG_TYPEDEF, vec![attr(AT_NAME, text("number")), attr(AT_TYPE, AttrValue::UnitRef(0x30))], vec![]);
    let anonymous = die(0x78, TAG_TYPEDEF, vec![attr(AT_TYPE, AttrValue::UnitRef(0x30))], vec![]);
    let empty_base = die(0x7a, TAG_BASE_TYPE, vec![attr(AT_NAME, text(""))], vec![]);
    let to_empty = die(0x7c, TAG_TYPEDEF, vec![attr(AT_NAME, text("blank")), attr(AT_TYPE, AttrValue::UnitRef(0x7a))], vec![]);
    let block = die(
        0xa0,
        TAG_LEXICAL_BLOCK,
        vec![attr(AT_LOW_PC, AttrValue::Addr(0x1120)), attr(AT_HIGH_PC, AttrValue::Udata(0x10))],
        vec![die(0xa8, TAG_VARIABLE, vec![attr(AT_NAME, text("i")), attr(AT_TYPE, AttrValue::UnitRef(0x30)), attr(AT_LOCATION, AttrValue::Exprloc(vec![0x91, 0x68]))], vec![])],
    );
    let main = die(
        0x80,
        TAG_SUBPROGRAM,
        vec![attr(AT_NAME, text("main")), attr(AT_LOW_PC, AttrValue::Addr(0x1100)), attr(AT_HIGH_PC, AttrValue::Udata(0x40))],
        vec![
            die(0x88, TAG_FORMAL_PARAMETER, vec![attr(AT_NAME, text("argc")), attr(AT_TYPE, AttrValue::UnitRef(0x30)), attr(AT_LOCATION, AttrValue::Exprloc(vec![0x91, 0x7c]))], vec![]),
            die(0x90, TAG_VARIABLE, vec![attr(AT_NAME, text("p")), attr(AT_TYPE, AttrValue::UnitRef(0x40)), attr(AT_LOCATION, AttrValue::Exprloc(vec![0x91, 0x70]))], vec![]),
            die(0x98, TAG_VARIABLE, vec![attr(AT_NAME, text("nowhere")), attr(AT_TYPE, AttrValue::UnitRef(0x30))], vec![]),
            die(0x9c, TAG_VARIABLE, vec![attr(AT_NAME, text("odd")), attr(AT_TYPE, AttrValue::UnitRef(0x999)), attr(AT_LOCATION, AttrValue::Exprloc(vec![0x91, 0x60]))], vec![]),
            block,
        ],
    );
    let root = die(
        0x0b,
        TAG_COMPILE_UNIT,
        vec![attr(AT_NAME, text("prog.c")), attr(AT_LOW_PC, AttrValue::Addr(0x1100))],
        vec![int_type, ptr_type, point, alias, anonymous, empty_base, to_empty, main],
    );
    DwarfUnit { encoding: ENC, root }
}

#[test]
fn frame_offsets_come_from_location_expressions() {
    assert_eq!(frame_offset(&vec![0x91, 0x7c], ENC), Some(-4));
    assert_eq!(frame_offset(&vec![0x91, 0x10], ENC), Some(16));
    // DW_OP_addr 0x4000: the evaluator asks for the address to be
    // relocated, which is not supported.
    assert_eq!(frame_offset(&vec![0x03, 0x00, 0x40, 0, 0, 0, 0, 0, 0], ENC), None);
    // DW_OP_reg0: a register, not memory.
    assert_eq!(frame_offset(&vec![0x50], ENC), None);
    // DW_OP_breg6 -8: needs a register value.
    assert_eq!(frame_offset(&vec![0x76, 0x78], ENC), None);
    // DW_OP_skip -3: jumps back onto itself; the evaluation is cut off.
    assert_eq!(frame_offset(&vec![0x2f, 0xfd, 0xff], ENC), None);
    assert_eq!(frame_offset(&vec![0x91, 0x00, 0x2f, 0xfd, 0xff], ENC), None);
    // An address size that no unit header gives.
    assert_eq!(frame_offset(&vec![0x91, 0x7c], UnitEncoding { address_size: 16, dwarf64: false, version: 4 }), None);
    // With 4-byte addresses the evaluator keeps the low 32 bits.
    assert_eq!(frame_offset(&vec![0x91, 0x7c], UnitEncoding { address_size: 4, dwarf64: false, version: 4 }), Some(0xffff_fffc));
    assert_eq!(to_signed(u64::MAX), -1);
    assert_eq!(to_signed(0x7fff_ffff_ffff_ffff), i64::MAX);
}

#[test]
fn scopes_are_built_from_entries() {
    let unit = sample_unit();
    let locs = locate_variables(&unit);
    assert!(locs.contains(&(0x88, -4)));
    assert!(locs.contains(&(0x90, -16)));
    assert!(locs.contains(&(0xa8, -24)));
    let cu = construct_scope(&unit, &locs, &unit.root);
    assert_eq!(cu.name.as_deref(), Some("prog.c"));
    assert_eq!(cu.low_pc, 0x1100);
    assert_eq!(cu.high_pc, u64::MAX);
    assert_eq!(cu.scopes.len(), 1);
    let main = &cu.scopes[0];
    assert_eq!(main.name.as_deref(), Some("main"));
    assert_eq!((main.low_pc, main.high_pc), (0x1100, 0x40));
    let argc = main.variables.get("argc").unwrap();
    assert_eq!((argc.offset, argc.ty_name.as_str()), (-4, "int"));
    assert_eq!(main.variables.get("p").unwrap().ty_name, "*");
    assert_eq!(main.variables.get("odd").unwrap().ty_name, "");
    assert!(main.variables.get("nowhere").is_none());
    assert_eq!(main.scopes[0].name, None);
    assert_eq!(main.scopes[0].variables.get("i").unwrap().offset, -24);
}

#[test]
fn global_scope_has_one_child_per_unit() {
    let units = vec![sample_unit(), sample_unit()];
    let g = construct_global_scope(&units);
    assert_eq!(g.name.as_deref(), Some("root"));
    assert_eq!((g.low_pc, g.high_pc), (0, u64::MAX));
    assert_eq!(g.scopes.len(), 2);
    let (st, names) = stop_at(&g, 0x9000, 0x1125);
    assert_eq!(names, vec!["root", "prog.c", "main", "unnamed scope", "prog.c", "main", "unnamed scope"]);
    assert_eq!(st.variables.get("i").unwrap().offset, -24);
}

#[test]
fn types_are_collected_from_entries() {
    let units = vec![sample_unit()];
    let types = get_types(&units);
    assert_eq!(types.len(), 2);
    let point = types.get("Point").unwrap();
    assert_eq!(point.base_type, "");
    let m: Vec<(String, i64, String)> = point.members.iter().map(|v| (v.name.clone(), v.offset, v.ty_name.clone())).collect();
    assert_eq!(m, vec![("x".to_string(), 0, "int".to_string()), ("y".to_string(), 4, "int".to_string())]);
    assert_eq!(types.get("number").unwrap().base_type, "int");
    assert!(types.get("int").is_none());
    assert!(types.get("blank").is_none());
}

#[test]
fn member_entries_become_variables() {
    let unit = sample_unit();
    let no_locs: Vec<(u64, i64)> = Vec::new();
    let member = die(1, TAG_MEMBER, vec![attr(AT_NAME, text("far")), attr(AT_DATA_MEMBER_LOCATION, AttrValue::Udata(u64::MAX))], vec![]);
    let v = process_variable(&unit, &no_locs, &member).unwrap();
    assert_eq!((v.name.as_str(), v.offset, v.ty_name.as_str()), ("far", -1, ""));
    let typedef_die = die(2, TAG_TYPEDEF, vec![attr(AT_NAME, text("t"))], vec![]);
    assert!(process_variable(&unit, &no_locs, &typedef_die).is_none());
    let unnamed = die(3, TAG_VARIABLE, vec![attr(AT_LOCATION, AttrValue::Exprloc(vec![0x91, 0x7c]))], vec![]);
    assert!(process_variable(&unit, &vec![(3, -4)], &unnamed).is_none());
}

#[test]
fn name_map_overwrites_in_place() {
    let mut m: NameMap<u32> = NameMap::new();
    m.insert("a".to_string(), 1);
    m.insert("b".to_string(), 2);
    m.insert("a".to_string(), 3);
    assert_eq!(m.len(), 2);
    assert_eq!(m.get("a"), Some(&3));
    assert_eq!(m.entries[0].0, "a");
    assert_eq!(m.get("c"), None);
}

#[test]
fn child_is_stopped_and_inspected_once() {
    let s = next_state(ChildState::Spawning, ChildEvent::Trapped).unwrap();
    assert_eq!(s, ChildState::Stopped);
    let s = next_state(s, ChildEvent::Inspect).unwrap();
    assert_eq!(s, ChildState::Inspecting);
    let s = next_state(s, ChildEvent::Resume).unwrap();
    assert_eq!(s, ChildState::Running);
    assert_eq!(next_state(s, ChildEvent::Trapped), None);
    let s = next_state(s, ChildEvent::Exit).unwrap();
    assert_eq!(s, ChildState::Exited);
    for e in [ChildEvent::Trapped, ChildEvent::Inspect, ChildEvent::Resume, ChildEvent::Exit] {
        assert_eq!(next_state(ChildState::Exited, e), None);
    }
    assert_eq!(next_state(ChildState::Spawning, ChildEvent::Exit), Some(ChildState::Exited));
    assert_eq!(next_state(ChildState::Spawning, ChildEvent::Inspect), None);
}
