use std::cell::Cell;
use std::rc::Rc;
use ulua::{
    State, Host, Raise, ArgError, Type, ThreadStatus, CallError, FromIndex, InitMetatable, Metatable,
    MetatableDecl, LUA_MULTRET,
};

struct Tracker {
    calls: Rc<Cell<u32>>,
    drops: Rc<Cell<u32>>,
}

impl Drop for Tracker {
    fn drop(&mut self) {
        self.drops.set(self.drops.get() + 1);
    }
}

enum Native {
    AddOne,
    Counter(Tracker),
    Strict,
    Fail,
    Spill,
    Bad,
    Obj(i64),
    GetX,
}

impl Host for Native {
    fn invoke(&mut self, state: &mut State<Native>) -> Result<i32, Raise> {
        match self {
            Native::AddOne => {
                let (a, _s): (i64, String) = state.fargs()?;
                state.push_integer(a + 1);
                Ok(1)
            }
            Native::Counter(t) => {
                t.calls.set(t.calls.get() + 1);
                Ok(0)
            }
            Native::Strict => {
                let n = <i64 as FromIndex>::from_lua(state, 1)?;
                let m = <Option<i64> as FromIndex>::from_lua(state, 2)?;
                state.push_integer(n + m.unwrap_or(100));
                Ok(1)
            }
            Native::Fail => {
                state.push_integer(1);
                Err(Raise::Message("boom".to_string()))
            }
            Native::Spill => {
                state.push_integer(1);
                state.push_integer(2);
                state.push_integer(3);
                Ok(2)
            }
            Native::Bad => Ok(5),
            Native::Obj(_) => Err(Raise::Message("an object is no function".to_string())),
            Native::GetX => {
                let x = match state.to_userdata(1) {
                    Some(Native::Obj(x)) => *x,
                    _ => return Err(Raise::ArgsNotMatch),
                };
                state.push_integer(x);
                Ok(1)
            }
        }
    }
}

struct PointType(Rc<Cell<u32>>);

impl InitMetatable<Native> for PointType {
    fn init(&self) -> MetatableDecl<Native> {
        self.0.set(self.0.get() + 1);
        MetatableDecl { name: "Point".to_string(), index_self: true, methods: vec![("get".to_string(), Native::GetX)] }
    }
}

#[test]
fn native_function_end_to_end() {
    let mut s: State<Native> = State::new();
    s.register("add_one", Native::AddOne);
    s.push_string("baseline");
    let base = s.get_top();
    assert_eq!(s.get_global("add_one"), Type::Function);
    s.push_integer(41);
    s.push_string("x");
    assert_eq!(s.pcall(2, 1), ThreadStatus::Success);
    assert_eq!(s.get_top(), base + 1);
    assert_eq!(s.to_integer(-1), 42);
    s.pop(1);
    assert_eq!(s.get_top(), base);
    assert_eq!(s.to_str(1), Some("baseline"));
}

#[test]
fn call_with_typed_arguments() {
    let mut s: State<Native> = State::new();
    s.rust_closure(Native::AddOne);
    let r: Result<i64, CallError> = s.call(1, (41i64, "x"));
    assert_eq!(r.ok(), Some(42));
    assert_eq!(s.get_top(), 2);
    let bad: Result<String, CallError> = s.call(1, (1i64, "y"));
    assert!(matches!(bad, Err(CallError::ValueNotMatch)));
    assert_eq!(s.get_top(), 3);
    let failed: Result<i64, CallError> = s.call(1, ("no", "y"));
    assert!(matches!(failed, Err(CallError::VmError(ThreadStatus::RuntimeError))));
    assert_eq!(s.to_str(-1), Some("bad argument #1 (number expected, got string)"));
}

#[test]
fn closure_runs_n_times_and_drops_once() {
    let calls = Rc::new(Cell::new(0));
    let drops = Rc::new(Cell::new(0));
    let mut s: State<Native> = State::new();
    s.rust_closure(Native::Counter(Tracker { calls: calls.clone(), drops: drops.clone() }));
    for _ in 0..5 {
        s.push_value(1);
        assert_eq!(s.pcall(0, 0), ThreadStatus::Success);
    }
    assert_eq!(calls.get(), 5);
    s.collect_garbage();
    assert_eq!(drops.get(), 0);
    assert!(s.is_live(1));
    s.push_value(1);
    s.pop(2);
    assert_eq!(s.get_top(), 0);
    s.collect_garbage();
    assert_eq!(drops.get(), 1);
    s.collect_garbage();
    assert_eq!(drops.get(), 1);
    assert_eq!(calls.get(), 5);
    drop(s);
    assert_eq!(drops.get(), 1);
}

#[test]
fn finalized_closure_is_never_called() {
    let calls = Rc::new(Cell::new(0));
    let drops = Rc::new(Cell::new(0));
    let mut s: State<Native> = State::new();
    s.new_table();
    s.rust_closure(Native::Counter(Tracker { calls: calls.clone(), drops: drops.clone() }));
    s.set_field(1, "f");
    s.collect_garbage();
    assert_eq!(drops.get(), 0);
    assert_eq!(s.get_field(1, "f"), Type::Function);
    assert!(s.is_live(-1));
    assert_eq!(s.pcall(0, 0), ThreadStatus::Success);
    assert_eq!(calls.get(), 1);
}

#[test]
fn state_teardown_drops_closures_once() {
    let drops = Rc::new(Cell::new(0));
    let mut s: State<Native> = State::new();
    s.rust_closure(Native::Counter(Tracker { calls: Rc::new(Cell::new(0)), drops: drops.clone() }));
    drop(s);
    assert_eq!(drops.get(), 1);
}

#[test]
fn metatable_built_once_for_a_thousand_objects() {
    let inits = Rc::new(Cell::new(0));
    let point = Metatable { key: 7, init: PointType(inits.clone()) };
    let mut s: State<Native> = State::new();
    for i in 0..1000 {
        s.push_userdata(Native::Obj(i), Some(&point));
    }
    assert_eq!(inits.get(), 1);
    assert_eq!(s.get_top(), 1000);
    assert!(s.get_metatable(1));
    for i in 1..=1000 {
        assert!(s.get_metatable(i));
        assert!(s.raw_equal(-1, 1001));
        s.pop(1);
    }
    assert_eq!(s.get_top(), 1001);
}

#[test]
fn objects_dispatch_methods_through_self_index() {
    let inits = Rc::new(Cell::new(0));
    let point = Metatable { key: 1, init: PointType(inits.clone()) };
    let mut s: State<Native> = State::new();
    s.push_userdata(Native::Obj(12), Some(&point));
    assert_eq!(s.get_field(1, "get"), Type::Function);
    s.push_value(1);
    assert_eq!(s.pcall(1, 1), ThreadStatus::Success);
    assert_eq!(s.to_integer(-1), 12);
    assert_eq!(s.get_field(1, "__name"), Type::String);
    assert_eq!(s.to_str(-1), Some("Point"));
    assert!(matches!(s.to_userdata(1), Some(Native::Obj(12))));
}

#[test]
fn plain_object_has_no_metatable() {
    let mut s: State<Native> = State::new();
    s.push_userdata::<PointType>(Native::Obj(3), None);
    assert!(!s.get_metatable(1));
    assert_eq!(s.get_field(1, "get"), Type::Nil);
    assert!(s.is_userdata(1));
}

#[test]
fn different_types_get_different_tables() {
    let mut s: State<Native> = State::new();
    let ka = s.new_type_key();
    let kb = s.new_type_key();
    assert_ne!(ka, kb);
    let a = Metatable { key: ka, init: PointType(Rc::new(Cell::new(0))) };
    let b = Metatable { key: kb, init: PointType(Rc::new(Cell::new(0))) };
    s.push_userdata(Native::Obj(1), Some(&a));
    s.push_userdata(Native::Obj(2), Some(&b));
    assert!(s.get_metatable(1));
    assert!(s.get_metatable(2));
    assert!(!s.raw_equal(3, 4));
}

#[test]
fn balance_restores_top_after_pushes() {
    let mut s: State<Native> = State::new();
    s.push_integer(1);
    let n = s.balance_with(|st| {
        st.push_integer(2);
        st.push_integer(3);
        st.get_top()
    });
    assert_eq!(n, 3);
    assert_eq!(s.get_top(), 1);
}

#[test]
fn balance_restores_top_after_failure() {
    let mut s: State<Native> = State::new();
    s.push_integer(1);
    s.push_integer(2);
    let r: Result<(), Raise> = s.balance_with(|st| {
        st.push_integer(3);
        st.pop(3);
        Err(Raise::Message("failed half way".to_string()))
    });
    assert!(r.is_err());
    assert_eq!(s.get_top(), 2);
}

#[test]
fn bad_argument_message_names_index() {
    let mut s: State<Native> = State::new();
    s.rust_closure(Native::Strict);
    s.push_string("x");
    assert_eq!(s.pcall(1, 1), ThreadStatus::RuntimeError);
    assert_eq!(s.get_top(), 1);
    assert_eq!(s.to_str(-1), Some("bad argument #1 (number expected, got string)"));
}

#[test]
fn optional_argument_defaults() {
    let mut s: State<Native> = State::new();
    s.rust_closure(Native::Strict);
    s.push_integer(1);
    s.push_string("not a number");
    assert_eq!(s.pcall(2, 1), ThreadStatus::Success);
    assert_eq!(s.to_integer(-1), 101);
}

#[test]
fn raised_message_becomes_error_value() {
    let mut s: State<Native> = State::new();
    s.push_integer(0);
    s.rust_closure(Native::Fail);
    assert_eq!(s.pcall(0, 3), ThreadStatus::RuntimeError);
    assert_eq!(s.get_top(), 2);
    assert_eq!(s.to_str(-1), Some("boom"));
}

#[test]
fn calling_a_number_fails() {
    let mut s: State<Native> = State::new();
    s.push_integer(5);
    s.push_integer(6);
    assert_eq!(s.pcall(1, 1), ThreadStatus::RuntimeError);
    assert_eq!(s.get_top(), 1);
    assert_eq!(s.to_str(-1), Some("attempt to call a number value"));
}

#[test]
fn results_are_adjusted_to_the_count_asked() {
    let mut s: State<Native> = State::new();
    s.rust_closure(Native::Spill);
    assert_eq!(s.pcall(0, 1), ThreadStatus::Success);
    assert_eq!(s.get_top(), 1);
    assert_eq!(s.to_integer(1), 2);
    s.set_top(0);
    s.rust_closure(Native::Spill);
    assert_eq!(s.pcall(0, 4), ThreadStatus::Success);
    assert_eq!(s.get_top(), 4);
    assert_eq!(s.to_integer(1), 2);
    assert_eq!(s.to_integer(2), 3);
    assert!(s.is_nil(3));
    s.set_top(0);
    s.rust_closure(Native::Spill);
    assert_eq!(s.pcall(0, LUA_MULTRET), ThreadStatus::Success);
    assert_eq!(s.get_top(), 2);
}

#[test]
fn invalid_result_count_is_an_error() {
    let mut s: State<Native> = State::new();
    s.rust_closure(Native::Bad);
    assert_eq!(s.pcall(0, 1), ThreadStatus::RuntimeError);
    assert_eq!(s.to_str(-1), Some("native function returned an invalid result count"));
}

#[test]
fn argument_error_converts_to_raise() {
    let e = ArgError { index: -2, expected: Type::Table, actual: Type::NoValue };
    let r: Raise = e.into();
    assert!(matches!(r, Raise::BadArgument(a) if a == e));
    let text = ulua::error::arg_error_message(&e);
    assert_eq!(text, b"bad argument #-2 (table expected, got no value)".to_vec());
}

#[test]
fn functions_registered_in_a_table() {
    let mut s: State<Native> = State::new();
    s.new_table();
    s.set_fns(vec![("add".to_string(), Native::AddOne), ("spill".to_string(), Native::Spill)]);
    assert_eq!(s.get_top(), 1);
    assert_eq!(s.get_field(1, "add"), Type::Function);
    s.push_integer(1);
    s.push_string("s");
    assert_eq!(s.pcall(2, 1), ThreadStatus::Success);
    assert_eq!(s.to_integer(-1), 2);
    assert_eq!(s.get_field(1, "spill"), Type::Function);
}

#[test]
fn cached_metatable_attached_to_table() {
    let inits = Rc::new(Cell::new(0));
    let point = Metatable { key: 3, init: PointType(inits.clone()) };
    let mut s: State<Native> = State::new();
    s.new_table();
    s.set_or_init_metatable(&point);
    s.new_table();
    s.set_or_init_metatable(&point);
    assert_eq!(inits.get(), 1);
    assert!(s.get_metatable(1));
    assert!(s.get_metatable(2));
    assert!(s.raw_equal(3, 4));
    assert!(s.get_metafield(1, "__name"));
    assert_eq!(s.to_str(-1), Some("Point"));
    assert!(!s.get_metafield(1, "missing"));
    s.push_integer(1);
    assert!(!s.get_metafield(-1, "__name"));
}

#[test]
fn invalid_option_message() {
    let mut s: State<Native> = State::new();
    s.push_string("zz");
    let r = s.check_option(1, None, &["a"]);
    let text = match &r {
        Err(e) => ulua::error::raise_message(e),
        Ok(_) => Vec::new(),
    };
    assert_eq!(text, b"bad argument #1 (invalid option 'zz')".to_vec());
}

#[test]
fn completion_of_a_call_is_exact() {
    let mut s: State<Native> = State::new();
    s.push_integer(1);
    s.push_integer(2);
    let results = vec![ulua::Slot::Int(7), ulua::Slot::Int(8), ulua::Slot::Int(9)];
    assert_eq!(s.complete_call(1, Ok(2), &results, 3), ThreadStatus::Success);
    assert_eq!(s.get_top(), 4);
    assert_eq!(s.to_integer(1), 1);
    assert_eq!(s.to_integer(2), 8);
    assert_eq!(s.to_integer(3), 9);
    assert!(s.is_nil(4));
    assert_eq!(s.complete_call(1, Ok(4), &results, 1), ThreadStatus::RuntimeError);
    assert_eq!(s.get_top(), 2);
    assert_eq!(s.complete_call(0, Err(Raise::ArgsNotMatch), &results, 1), ThreadStatus::RuntimeError);
    assert_eq!(s.get_top(), 1);
    assert_eq!(s.to_str(1), Some("args not match"));
}

#[test]
fn globals_hold_values() {
    let mut s: State<Native> = State::new();
    assert_eq!(s.get_global("x"), Type::Nil);
    s.push_integer(5);
    s.set_global("x");
    assert_eq!(s.get_top(), 1);
    assert_eq!(s.get_global("x"), Type::Number);
    assert_eq!(s.to_integer(-1), 5);
    s.push_global_table();
    assert_eq!(s.get_field(-1, "x"), Type::Number);
    assert_eq!(s.to_integer(-1), 5);
}

#[test]
fn referenced_closure_survives_collection() {
    let drops = Rc::new(Cell::new(0));
    let mut s: State<Native> = State::new();
    s.rust_closure(Native::Counter(Tracker { calls: Rc::new(Cell::new(0)), drops: drops.clone() }));
    let r = s.reference();
    assert_eq!(s.get_top(), 0);
    s.collect_garbage();
    assert_eq!(drops.get(), 0);
    s.unreference(r);
    s.collect_garbage();
    assert_eq!(drops.get(), 1);
}

#[test]
fn args_error_names_the_failing_argument() {
    let mut s: State<Native> = State::new();
    s.push_integer(1);
    s.push_integer(2);
    let r = s.args::<(i64, String)>(1);
    assert!(matches!(r, Err(Raise::BadArgument(e)) if e == ArgError { index: 2, expected: Type::String, actual: Type::Number }));
    s.rust_closure(Native::AddOne);
    s.push_integer(41);
    assert_eq!(s.pcall(1, 1), ThreadStatus::RuntimeError);
    assert_eq!(s.to_str(-1), Some("bad argument #2 (string expected, got no value)"));
}

#[test]
fn calling_nil_global_fails() {
    let mut s: State<Native> = State::new();
    let r: Result<i64, CallError> = s.call(5, (1i64,));
    assert!(matches!(r, Err(CallError::VmError(ThreadStatus::RuntimeError))));
    assert_eq!(s.to_str(-1), Some("attempt to call a nil value"));
    assert_eq!(s.get_top(), 1);
}

#[test]
fn balance_keeps_slots_below() {
    let mut s: State<Native> = State::new();
    s.push_integer(1);
    s.push_integer(2);
    let r = s.balance_with(|st| {
        st.pop(2);
        st.push_string("x");
        7
    });
    assert_eq!(r, 7);
    assert_eq!(s.get_top(), 2);
    assert_eq!(s.to_integer(1), 1);
    assert_eq!(s.to_integer(2), 2);
}
