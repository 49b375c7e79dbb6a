use ulua::{State, FromLua, FromLuaMulti, ToLuaMulti, FromIndex, NumberBits, StrictBool, ArgError, Type};

fn back<T: FromLua + ulua::ToLua>(x: T) -> Option<T> {
    let mut s: State<u8> = State::new();
    s.push(x);
    let r = <T as FromLua>::from_lua(&s, -1);
    assert_eq!(s.get_top(), 1);
    r
}

#[test]
fn round_trip_integer_bounds() {
    assert_eq!(back(0i64), Some(0));
    assert_eq!(back(i64::MAX), Some(i64::MAX));
    assert_eq!(back(i64::MIN), Some(i64::MIN));
    assert_eq!(back(u64::MAX), Some(u64::MAX));
    assert_eq!(back(i8::MIN), Some(i8::MIN));
    assert_eq!(back(u8::MAX), Some(u8::MAX));
    assert_eq!(back(i16::MIN), Some(i16::MIN));
    assert_eq!(back(u16::MAX), Some(u16::MAX));
    assert_eq!(back(i32::MIN), Some(i32::MIN));
    assert_eq!(back(u32::MAX), Some(u32::MAX));
    assert_eq!(back(isize::MIN), Some(isize::MIN));
    assert_eq!(back(usize::MAX), Some(usize::MAX));
}

#[test]
fn unsigned_max_is_stored_as_minus_one() {
    let mut s: State<u8> = State::new();
    s.push(u64::MAX);
    assert_eq!(s.to_integer(-1), -1);
}

#[test]
fn out_of_range_integer_does_not_convert() {
    let mut s: State<u8> = State::new();
    s.push_integer(300);
    s.push_integer(-1);
    s.push_integer(255);
    assert_eq!(<u8 as FromLua>::from_lua(&s, 1), None);
    assert_eq!(<u8 as FromLua>::from_lua(&s, 2), None);
    assert_eq!(<u8 as FromLua>::from_lua(&s, 3), Some(255));
    assert_eq!(<i8 as FromLua>::from_lua(&s, 1), None);
    assert_eq!(<i16 as FromLua>::from_lua(&s, 1), Some(300));
    assert_eq!(<u32 as FromLua>::from_lua(&s, 2), None);
    assert_eq!(<i32 as FromLua>::from_lua(&s, 2), Some(-1));
    assert_eq!(<u64 as FromLua>::from_lua(&s, 2), Some(u64::MAX));
    assert!(<u8 as FromIndex>::from_lua(&s, 1).is_err());
    assert_eq!(<Option<u8> as FromIndex>::from_lua(&s, 1), Ok(None));
}

#[test]
fn round_trip_booleans() {
    assert_eq!(back(true), Some(true));
    assert_eq!(back(false), Some(false));
    assert_eq!(back(StrictBool(true)), Some(StrictBool(true)));
}

#[test]
fn round_trip_strings() {
    assert_eq!(back(String::new()), Some(String::new()));
    assert_eq!(back("héllo, wörld".to_string()), Some("héllo, wörld".to_string()));
    let mut s: State<u8> = State::new();
    s.push(&[0u8, 255, 10][..]);
    s.push(&b""[..]);
    assert_eq!(<Vec<u8> as FromLua>::from_lua(&s, 1), Some(vec![0u8, 255, 10]));
    assert_eq!(<Vec<u8> as FromLua>::from_lua(&s, 2), Some(Vec::new()));
}

#[test]
fn round_trip_nan_bits() {
    let nan = f64::NAN.to_bits() | 0x1234;
    assert_eq!(back(NumberBits(nan)), Some(NumberBits(nan)));
    assert!(f64::from_bits(back(NumberBits(nan)).unwrap().0).is_nan());
    assert_eq!(back(NumberBits((-0.0f64).to_bits())), Some(NumberBits((-0.0f64).to_bits())));
    assert_eq!(back(NumberBits(f64::MAX.to_bits())), Some(NumberBits(f64::MAX.to_bits())));
}

#[test]
fn float_slot_is_not_an_integer() {
    let mut s: State<u8> = State::new();
    s.push_number(3.0f64.to_bits());
    assert_eq!(<i64 as FromLua>::from_lua(&s, 1), None);
    assert!(s.is_number(1));
    assert!(!s.is_integer(1));
    s.push_integer(3);
    assert_eq!(<NumberBits as FromLua>::from_lua(&s, 2), None);
}

#[test]
fn invalid_utf8_is_no_string() {
    let mut s: State<u8> = State::new();
    s.push_bytes(&[0xc3, 0x28]);
    assert_eq!(<String as FromLua>::from_lua(&s, 1), None);
    assert_eq!(<Vec<u8> as FromLua>::from_lua(&s, 1), Some(vec![0xc3, 0x28]));
}

#[test]
fn lenient_bool_and_strict_bool() {
    let mut s: State<u8> = State::new();
    s.push_integer(0);
    s.push_nil();
    assert_eq!(<bool as FromLua>::from_lua(&s, 1), Some(true));
    assert_eq!(<bool as FromLua>::from_lua(&s, 2), Some(false));
    assert_eq!(<bool as FromLua>::from_lua(&s, 3), Some(false));
    assert_eq!(<StrictBool as FromLua>::from_lua(&s, 1), None);
    assert_eq!(<StrictBool as FromLua>::from_lua(&s, 2), None);
}

#[test]
fn option_downgrades_failure() {
    let mut s: State<u8> = State::new();
    s.push_string("x");
    assert_eq!(<Option<i64> as FromLua>::from_lua(&s, 1), Some(None));
    s.push_integer(5);
    assert_eq!(<Option<i64> as FromLua>::from_lua(&s, 2), Some(Some(5)));
    s.push(None::<i64>);
    assert!(s.is_nil(3));
    s.push(Some(8i64));
    assert_eq!(s.to_integer(4), 8);
}

#[test]
fn strict_argument_fails_lenient_gives_none() {
    let mut s: State<u8> = State::new();
    s.push_string("not a number");
    let strict = <i64 as FromIndex>::from_lua(&s, 1);
    assert_eq!(strict, Err(ArgError { index: 1, expected: Type::Number, actual: Type::String }));
    let lenient = <Option<i64> as FromIndex>::from_lua(&s, 1);
    assert_eq!(lenient, Ok(None));
    assert_eq!(<Option<bool> as FromIndex>::from_lua(&s, 1), Ok(None));
    assert_eq!(<String as FromIndex>::from_lua(&s, 1), Ok("not a number".to_string()));
    assert_eq!(<NumberBits as FromIndex>::from_lua(&s, 1), Err(ArgError { index: 1, expected: Type::Number, actual: Type::String }));
    assert_eq!(<String as FromIndex>::from_lua(&s, 2), Err(ArgError { index: 2, expected: Type::String, actual: Type::NoValue }));
    assert_eq!(<bool as FromIndex>::from_lua(&s, 2), Ok(false));
}

#[test]
fn tuple_counts_match_arity() {
    assert_eq!(<() as ToLuaMulti>::COUNT, 0);
    assert_eq!(<i64 as ToLuaMulti>::COUNT, 1);
    assert_eq!(<(i64,) as ToLuaMulti>::COUNT, 1);
    assert_eq!(<(i64, bool) as ToLuaMulti>::COUNT, 2);
    assert_eq!(<(i64, bool, u8) as ToLuaMulti>::COUNT, 3);
    assert_eq!(<(i64, bool, u8, i8) as ToLuaMulti>::COUNT, 4);
    assert_eq!(<(i64, bool, u8, i8, u16) as ToLuaMulti>::COUNT, 5);
    assert_eq!(<(i64, bool, u8, i8, u16, i16) as ToLuaMulti>::COUNT, 6);
    assert_eq!(<(i64, bool, u8, i8, u16, i16, u32) as ToLuaMulti>::COUNT, 7);
    assert_eq!(<(i64, bool, u8, i8, u16, i16, u32, i32) as ToLuaMulti>::COUNT, 8);
    assert_eq!(<(i64, bool, u8, i8, u16, i16, u32, i32, u64) as ToLuaMulti>::COUNT, 9);
    assert_eq!(<() as FromLuaMulti>::COUNT, 0);
    assert_eq!(<String as FromLuaMulti>::COUNT, 1);
    assert_eq!(<(i64, String) as FromLuaMulti>::COUNT, 2);
    assert_eq!(<(i64, bool, u8, i8, u16, i16, u32, i32, u64) as FromLuaMulti>::COUNT, 9);
}

#[test]
fn push_then_pull_tuple_of_nine() {
    let mut s: State<u8> = State::new();
    s.push_string("below");
    let n = s.pushx((1i64, true, 3u8, -4i8, 5u16, -6i16, 7u32, -8i32, 9u64));
    assert_eq!(n, 9);
    assert_eq!(s.get_top(), 10);
    assert_eq!(s.to_str(1), Some("below"));
    let back: Option<(i64, bool, u8, i8, u16, i16, u32, i32, u64)> = FromLuaMulti::from_lua(&s, 2);
    assert_eq!(back, Some((1, true, 3, -4, 5, -6, 7, -8, 9)));
    assert_eq!(s.get_top(), 10);
}

#[test]
fn empty_tuple_pushes_nothing() {
    let mut s: State<u8> = State::new();
    assert_eq!(s.pushx(()), 0);
    assert_eq!(s.get_top(), 0);
    assert_eq!(<() as FromLuaMulti>::from_lua(&s, 1), Some(()));
}

#[test]
fn tuple_read_fails_as_a_whole() {
    let mut s: State<u8> = State::new();
    s.pushx((1i64, "two", 3i64));
    let r: Option<(i64, i64, i64)> = FromLuaMulti::from_lua(&s, 1);
    assert_eq!(r, None);
    let ok: Option<(i64, String, i64)> = FromLuaMulti::from_lua(&s, 1);
    assert_eq!(ok, Some((1, "two".to_string(), 3)));
    assert!(s.args::<(i64, i64)>(1).is_err());
    assert_eq!(s.arg::<i64>(3), Some(3));
}
