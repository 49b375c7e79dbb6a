use ulua::{State, Type, Value, ThreadStatus, Library, Reference, SpinLock, asm_pause, LUAI_MAXSTACK};

#[test]
fn push_and_read_scalars() {
    let mut s: State<u8> = State::new();
    s.push_nil();
    s.push_bool(true);
    s.push_integer(-7);
    s.push_string("hi");
    assert_eq!(s.get_top(), 4);
    assert_eq!(s.type_of(1), Type::Nil);
    assert_eq!(s.type_of(2), Type::Boolean);
    assert_eq!(s.type_of(3), Type::Number);
    assert_eq!(s.type_of(-1), Type::String);
    assert_eq!(s.type_of(5), Type::NoValue);
    assert_eq!(s.type_of(0), Type::NoValue);
    assert_eq!(s.to_integer(3), -7);
    assert_eq!(s.to_integer(4), 0);
    assert_eq!(s.to_str(-1), Some("hi"));
    assert_eq!(s.to_bytes(-1), Some(&b"hi"[..]));
    assert!(s.is_none(9));
    assert!(s.is_none_or_nil(1));
    assert!(!s.is_nil(2));
}

#[test]
fn truthiness_of_slots() {
    let mut s: State<u8> = State::new();
    s.push_nil();
    s.push_bool(false);
    s.push_integer(0);
    s.push_string("");
    assert!(!s.to_bool(1));
    assert!(!s.to_bool(2));
    assert!(s.to_bool(3));
    assert!(s.to_bool(4));
    assert!(!s.to_bool(5));
}

#[test]
fn set_top_pads_with_nil_and_truncates() {
    let mut s: State<u8> = State::new();
    s.push_integer(1);
    s.set_top(3);
    assert_eq!(s.get_top(), 3);
    assert!(s.is_nil(2));
    assert!(s.is_nil(3));
    s.set_top(-3);
    assert_eq!(s.get_top(), 1);
    assert_eq!(s.to_integer(1), 1);
    s.set_top(0);
    assert_eq!(s.get_top(), 0);
}

#[test]
fn abs_index_and_pop() {
    let mut s: State<u8> = State::new();
    s.push_integer(10);
    s.push_integer(20);
    s.push_integer(30);
    assert_eq!(s.abs_index(-1), 3);
    assert_eq!(s.abs_index(-3), 1);
    assert_eq!(s.abs_index(2), 2);
    s.pop(2);
    assert_eq!(s.get_top(), 1);
    assert_eq!(s.to_integer(-1), 10);
}

#[test]
fn push_value_copies_and_nil_for_absent() {
    let mut s: State<u8> = State::new();
    s.push_string("abc");
    s.push_value(1);
    s.push_value(7);
    assert_eq!(s.get_top(), 3);
    assert_eq!(s.to_str(2), Some("abc"));
    assert!(s.is_nil(3));
    assert!(s.raw_equal(1, 2));
    assert!(!s.raw_equal(1, 3));
    assert!(!s.raw_equal(1, 9));
}

#[test]
fn check_stack_limits() {
    let s: State<u8> = State::new();
    assert!(s.check_stack(10));
    assert!(s.check_stack(LUAI_MAXSTACK as i32));
    assert!(!s.check_stack(LUAI_MAXSTACK as i32 + 1));
    assert!(!s.check_stack(-1));
}

#[test]
fn value_read_out() {
    let mut s: State<u8> = State::new();
    s.push_integer(5);
    s.push_number(2.5f64.to_bits());
    s.push_bytes(&[0xff, 0x00]);
    s.new_table();
    assert!(matches!(s.value(1), Value::Int(5)));
    assert!(matches!(s.value(2), Value::Num(b) if b == 2.5f64.to_bits()));
    assert!(matches!(s.value(3), Value::Str(b) if b == &[0xffu8, 0x00][..]));
    assert!(matches!(s.value(4), Value::Table));
    assert!(matches!(s.value(5), Value::Absent));
    assert_eq!(s.to_str(3), None);
}

#[test]
fn tables_store_fields() {
    let mut s: State<u8> = State::new();
    s.new_table();
    s.push_integer(3);
    s.set_field(1, "x");
    s.push_string("v");
    s.set_field(-2, "y");
    s.push_integer(4);
    s.set_field(1, "x");
    assert_eq!(s.get_top(), 1);
    assert_eq!(s.get_field(1, "x"), Type::Number);
    assert_eq!(s.to_integer(-1), 4);
    assert_eq!(s.get_field(1, "y"), Type::String);
    assert_eq!(s.to_str(-1), Some("v"));
    assert_eq!(s.get_field(1, "z"), Type::Nil);
    assert_eq!(s.get_top(), 4);
}

#[test]
fn fields_inherited_through_index_table() {
    let mut s: State<u8> = State::new();
    s.new_table(); // object table, 1
    s.new_table(); // behavior table, 2
    s.new_table(); // methods table, 3
    s.push_integer(9);
    s.set_field(3, "m");
    s.set_field(2, "__index");
    assert!(!s.get_metatable(1));
    s.set_metatable(1);
    assert_eq!(s.get_top(), 1);
    assert_eq!(s.get_field(1, "m"), Type::Number);
    assert_eq!(s.to_integer(-1), 9);
    assert!(s.get_metatable(1));
    assert!(s.is_table(-1));
}

#[test]
fn thread_status_errors() {
    assert!(!ThreadStatus::Success.is_err());
    assert!(!ThreadStatus::Yield.is_err());
    assert!(ThreadStatus::RuntimeError.is_err());
    assert!(ThreadStatus::SyntaxError.is_err());
    assert!(ThreadStatus::MemoryError.is_err());
    assert!(ThreadStatus::GcError.is_err());
    assert!(ThreadStatus::MessageHandlerError.is_err());
    assert!(ThreadStatus::FileError.is_err());
}

#[test]
fn library_names() {
    assert_eq!(Library::Base.name(), "_G");
    assert_eq!(Library::Coroutine.name(), "coroutine");
    assert_eq!(Library::Table.name(), "table");
    assert_eq!(Library::Io.name(), "io");
    assert_eq!(Library::Os.name(), "os");
    assert_eq!(Library::String.name(), "string");
    assert_eq!(Library::Utf8.name(), "utf8");
    assert_eq!(Library::Bit32.name(), "bit32");
    assert_eq!(Library::Math.name(), "math");
    assert_eq!(Library::Debug.name(), "debug");
    assert_eq!(Library::Package.name(), "package");
}

#[test]
fn references() {
    let r = Reference(-1);
    assert!(r.is_nil_ref());
    assert!(!r.is_no_ref());
    assert_eq!(r.value(), -1);
    assert!(Reference(-2).is_no_ref());
    let q = Reference(4);
    assert!(!q.is_nil_ref());
    assert_eq!(q.value(), 4);
}

#[test]
fn spin_lock_cycle() {
    let mut l = SpinLock::new();
    assert!(!l.locked());
    l.lock();
    assert!(l.locked());
    assert!(!l.try_lock());
    l.unlock();
    assert!(!l.locked());
    assert!(l.try_lock());
    assert!(l.locked());
    asm_pause();
}

#[test]
fn type_and_status_codes() {
    assert_eq!(Type::from_c_int(0), Type::Nil);
    assert_eq!(Type::from_c_int(3), Type::Number);
    assert_eq!(Type::from_c_int(8), Type::Thread);
    assert_eq!(Type::from_c_int(-1), Type::Invalid);
    assert_eq!(Type::from_c_int(9), Type::Invalid);
    assert_eq!(ThreadStatus::from_c_int(0), ThreadStatus::Success);
    assert_eq!(ThreadStatus::from_c_int(2), ThreadStatus::RuntimeError);
    assert_eq!(ThreadStatus::from_c_int(7), ThreadStatus::FileError);
}

#[test]
fn argument_checks() {
    let mut s: State<u8> = State::new();
    s.push_integer(4);
    s.push_string("abc");
    s.push_nil();
    assert_eq!(s.check_integer(1), Ok(4));
    assert!(s.check_integer(2).is_err());
    assert_eq!(s.opt_integer(3, 9), Ok(9));
    assert_eq!(s.opt_integer(4, 9), Ok(9));
    assert_eq!(s.check_string(2), Ok("abc"));
    assert!(s.check_string(1).is_err());
    assert_eq!(s.opt_string(3, "dflt"), Ok("dflt"));
    assert_eq!(s.opt_string(2, "dflt"), Ok("abc"));
    assert!(s.check_type(1, Type::Number).is_ok());
    assert_eq!(s.check_type(1, Type::Table).unwrap_err().actual, Type::Number);
    assert!(s.arg_check(true, 1, "fine").is_ok());
    assert!(s.arg_check(false, 1, "not fine").is_err());
    assert_eq!(s.typename_of(Type::Table), b"table".to_vec());
    assert_eq!(s.typename_at(2), b"string".to_vec());
    assert_eq!(s.typename_at(7), b"no value".to_vec());
}

#[test]
fn options_are_looked_up() {
    let mut s: State<u8> = State::new();
    s.push_string("b");
    s.push_string("z");
    let lst = ["a", "b", "c", "b"];
    assert_eq!(s.check_option(1, None, &lst).ok(), Some(1));
    assert!(s.check_option(2, None, &lst).is_err());
    assert_eq!(s.check_option(3, Some("c"), &lst).ok(), Some(2));
    assert!(s.check_option(3, None, &lst).is_err());
}

#[test]
fn gsub_replaces_every_occurrence() {
    let mut s: State<u8> = State::new();
    s.gsub("a.b.c", ".", "::");
    assert_eq!(s.to_str(-1), Some("a::b::c"));
    s.gsub("aaa", "aa", "x");
    assert_eq!(s.to_str(-1), Some("xa"));
    s.gsub("", "a", "b");
    assert_eq!(s.to_str(-1), Some(""));
    s.gsub("abc", "z", "y");
    assert_eq!(s.to_str(-1), Some("abc"));
    s.gsub("abab", "ab", "");
    assert_eq!(s.to_str(-1), Some(""));
    assert_eq!(s.get_top(), 5);
}

#[test]
fn references_keep_values() {
    let mut s: State<u8> = State::new();
    s.push_string("kept");
    let r = s.reference();
    assert_eq!(s.get_top(), 0);
    assert!(r.value() >= 1);
    s.push_nil();
    assert!(s.reference().is_nil_ref());
    s.push_reference(r);
    assert_eq!(s.to_str(-1), Some("kept"));
    s.unreference(r);
    s.push_reference(r);
    assert!(s.is_nil(-1));
    s.push_integer(3);
    let q = s.reference();
    assert_eq!(q, r);
    s.push_reference(q);
    assert_eq!(s.to_integer(-1), 3);
}
