use vstd::prelude::*;
use vstd::string::StringSliceAdditionalSpecFns;
use vstd::utf8::{encode_utf8, valid_utf8, encode_utf8_valid_utf8, encode_utf8_decode_utf8};
use crate::value::{Index, Type, Datum, type_of_datum, truthy};
use crate::state::{State, Host, LUAI_MAXSTACK, LUAI_MAXCCALLS, or_nil, call_outcome};
use crate::error::{CallFailure, failure_text, call_error_text};
use crate::error::{ArgError, Raise};
use crate::value::{ThreadStatus, CallError};

verus! {

/// A float carried as its IEEE-754 bit pattern.
#[derive(Clone, Copy, Debug, PartialEq, Eq, Structural)]
pub struct NumberBits(pub u64);

/// A boolean that converts only from a slot that holds a boolean.
#[derive(Clone, Copy, Debug, PartialEq, Eq, Structural)]
pub struct StrictBool(pub bool);

/// A host value that can be pushed onto the stack as one slot.
pub trait ToLua: Sized {
    /// The datum that the value becomes.
    spec fn lua_datum(&self) -> Datum;

    /// Pushes the value as exactly one slot.
    fn to_lua<H>(self, state: &mut State<H>)
        requires
            old(state).wf(),
            old(state).room(1),
        ensures
            final(state).wf(),
            final(state).pushed(old(state), self.lua_datum()),
    ;
}

/// A host value that can be read from one slot, without changing the stack.
pub trait FromLua: Sized {
    /// Whether a datum converts to a value of this type.
    spec fn accepts(d: Datum) -> bool;

    /// Whether `x` is what datum `d` converts to.
    spec fn converts(d: Datum, x: Self) -> bool;

    /// The type that a slot must have to convert, named in argument errors.
    spec fn wanted() -> Type;

    fn wanted_type() -> (r: Type)
        ensures
            r == Self::wanted(),
    ;

    /// The value at `index`, or `None` if that slot does not convert.
    fn from_lua<H>(state: &State<H>, index: Index) -> (r: Option<Self>)
        requires
            state.wf(),
        ensures
            r is Some == Self::accepts(state.at(index as int)),
            r matches Some(x) ==> Self::converts(state.at(index as int), x),
    ;
}

impl ToLua for i8 {
    open spec fn lua_datum(&self) -> Datum {
        Datum::Int(*self as i64)
    }

    fn to_lua<H>(self, state: &mut State<H>) {
        state.push_integer(self as i64);
    }
}

impl FromLua for i8 {
    /// An integer converts only when it lies in the range of the type; it is
    /// never cut down.
    open spec fn accepts(d: Datum) -> bool {
        d matches Datum::Int(i) && -128 <= i <= 127
    }

    open spec fn converts(d: Datum, x: i8) -> bool {
        d matches Datum::Int(i) && x as i64 == i
    }

    open spec fn wanted() -> Type {
        Type::Number
    }

    fn wanted_type() -> (r: Type) {
        Type::Number
    }

    fn from_lua<H>(state: &State<H>, index: Index) -> (r: Option<i8>) {
        match state.to_integerx(index) {
            Some(i) => if -128i64 <= i && i <= 127i64 { Some(i as i8) } else { None },
            None => None,
        }
    }
}

/// An integer read back from the slot it was pushed as is the integer itself.
pub proof fn lemma_round_trip_i8(x: i8)
    ensures
        <i8 as FromLua>::accepts(x.lua_datum()),
        forall|y: i8| <i8 as FromLua>::converts(x.lua_datum(), y) ==> y == x,
{
}

impl ToLua for u8 {
    open spec fn lua_datum(&self) -> Datum {
        Datum::Int(*self as i64)
    }

    fn to_lua<H>(self, state: &mut State<H>) {
        state.push_integer(self as i64);
    }
}

impl FromLua for u8 {
    /// An integer converts only when it lies in the range of the type; it is
    /// never cut down.
    open spec fn accepts(d: Datum) -> bool {
        d matches Datum::Int(i) && 0 <= i <= 255
    }

    open spec fn converts(d: Datum, x: u8) -> bool {
        d matches Datum::Int(i) && x as i64 == i
    }

    open spec fn wanted() -> Type {
        Type::Number
    }

    fn wanted_type() -> (r: Type) {
        Type::Number
    }

    fn from_lua<H>(state: &State<H>, index: Index) -> (r: Option<u8>) {
        match state.to_integerx(index) {
            Some(i) => if 0i64 <= i && i <= 255i64 { Some(i as u8) } else { None },
            None => None,
        }
    }
}

/// An integer read back from the slot it was pushed as is the integer itself.
pub proof fn lemma_round_trip_u8(x: u8)
    ensures
        <u8 as FromLua>::accepts(x.lua_datum()),
        forall|y: u8| <u8 as FromLua>::converts(x.lua_datum(), y) ==> y == x,
{
}

impl ToLua for i16 {
    open spec fn lua_datum(&self) -> Datum {
        Datum::Int(*self as i64)
    }

    fn to_lua<H>(self, state: &mut State<H>) {
        state.push_integer(self as i64);
    }
}

impl FromLua for i16 {
    /// An integer converts only when it lies in the range of the type; it is
    /// never cut down.
    open spec fn accepts(d: Datum) -> bool {
        d matches Datum::Int(i) && -32768 <= i <= 32767
    }

    open spec fn converts(d: Datum, x: i16) -> bool {
        d matches Datum::Int(i) && x as i64 == i
    }

    open spec fn wanted() -> Type {
        Type::Number
    }

    fn wanted_type() -> (r: Type) {
        Type::Number
    }

    fn from_lua<H>(state: &State<H>, index: Index) -> (r: Option<i16>) {
        match state.to_integerx(index) {
            Some(i) => if -32768i64 <= i && i <= 32767i64 { Some(i as i16) } else { None },
            None => None,
        }
    }
}

/// An integer read back from the slot it was pushed as is the integer itself.
pub proof fn lemma_round_trip_i16(x: i16)
    ensures
        <i16 as FromLua>::accepts(x.lua_datum()),
        forall|y: i16| <i16 as FromLua>::converts(x.lua_datum(), y) ==> y == x,
{
}

impl ToLua for u16 {
    open spec fn lua_datum(&self) -> Datum {
        Datum::Int(*self as i64)
    }

    fn to_lua<H>(self, state: &mut State<H>) {
        state.push_integer(self as i64);
    }
}

impl FromLua for u16 {
    /// An integer converts only when it lies in the range of the type; it is
    /// never cut down.
    open spec fn accepts(d: Datum) -> bool {
        d matches Datum::Int(i) && 0 <= i <= 65535
    }

    open spec fn converts(d: Datum, x: u16) -> bool {
        d matches Datum::Int(i) && x as i64 == i
    }

    open spec fn wanted() -> Type {
        Type::Number
    }

    fn wanted_type() -> (r: Type) {
        Type::Number
    }

    fn from_lua<H>(state: &State<H>, index: Index) -> (r: Option<u16>) {
        match state.to_integerx(index) {
            Some(i) => if 0i64 <= i && i <= 65535i64 { Some(i as u16) } else { None },
            None => None,
        }
    }
}

/// An integer read back from the slot it was pushed as is the integer itself.
pub proof fn lemma_round_trip_u16(x: u16)
    ensures
        <u16 as FromLua>::accepts(x.lua_datum()),
        forall|y: u16| <u16 as FromLua>::converts(x.lua_datum(), y) ==> y == x,
{
}

impl ToLua for i32 {
    open spec fn lua_datum(&self) -> Datum {
        Datum::Int(*self as i64)
    }

    fn to_lua<H>(self, state: &mut State<H>) {
        state.push_integer(self as i64);
    }
}

impl FromLua for i32 {
    /// An integer converts only when it lies in the range of the type; it is
    /// never cut down.
    open spec fn accepts(d: Datum) -> bool {
        d matches Datum::Int(i) && -2147483648 <= i <= 2147483647
    }

    open spec fn converts(d: Datum, x: i32) -> bool {
        d matches Datum::Int(i) && x as i64 == i
    }

    open spec fn wanted() -> Type {
        Type::Number
    }

    fn wanted_type() -> (r: Type) {
        Type::Number
    }

    fn from_lua<H>(state: &State<H>, index: Index) -> (r: Option<i32>) {
        match state.to_integerx(index) {
            Some(i) => if -2147483648i64 <= i && i <= 2147483647i64 { Some(i as i32) } else { None },
            None => None,
        }
    }
}

/// An integer read back from the slot it was pushed as is the integer itself.
pub proof fn lemma_round_trip_i32(x: i32)
    ensures
        <i32 as FromLua>::accepts(x.lua_datum()),
        forall|y: i32| <i32 as FromLua>::converts(x.lua_datum(), y) ==> y == x,
{
}

impl ToLua for u32 {
    open spec fn lua_datum(&self) -> Datum {
        Datum::Int(*self as i64)
    }

    fn to_lua<H>(self, state: &mut State<H>) {
        state.push_integer(self as i64);
    }
}

impl FromLua for u32 {
    /// An integer converts only when it lies in the range of the type; it is
    /// never cut down.
    open spec fn accepts(d: Datum) -> bool {
        d matches Datum::Int(i) && 0 <= i <= 4294967295
    }

    open spec fn converts(d: Datum, x: u32) -> bool {
        d matches Datum::Int(i) && x as i64 == i
    }

    open spec fn wanted() -> Type {
        Type::Number
    }

    fn wanted_type() -> (r: Type) {
        Type::Number
    }

    fn from_lua<H>(state: &State<H>, index: Index) -> (r: Option<u32>) {
        match state.to_integerx(index) {
            Some(i) => if 0i64 <= i && i <= 4294967295i64 { Some(i as u32) } else { None },
            None => None,
        }
    }
}

/// An integer read back from the slot it was pushed as is the integer itself.
pub proof fn lemma_round_trip_u32(x: u32)
    ensures
        <u32 as FromLua>::accepts(x.lua_datum()),
        forall|y: u32| <u32 as FromLua>::converts(x.lua_datum(), y) ==> y == x,
{
}

impl ToLua for i64 {
    open spec fn lua_datum(&self) -> Datum {
        Datum::Int(*self as i64)
    }

    fn to_lua<H>(self, state: &mut State<H>) {
        state.push_integer(self as i64);
    }
}

impl FromLua for i64 {
    /// Every integer converts: the type has as many values as the VM's
    /// integers, and the conversion is the two's-complement bijection.
    open spec fn accepts(d: Datum) -> bool {
        d is Int
    }

    open spec fn converts(d: Datum, x: i64) -> bool {
        d matches Datum::Int(i) && x == i as i64
    }

    open spec fn wanted() -> Type {
        Type::Number
    }

    fn wanted_type() -> (r: Type) {
        Type::Number
    }

    fn from_lua<H>(state: &State<H>, index: Index) -> (r: Option<i64>) {
        match state.to_integerx(index) {
            Some(i) => Some(i as i64),
            None => None,
        }
    }
}

/// An integer read back from the slot it was pushed as is the integer itself.
pub proof fn lemma_round_trip_i64(x: i64)
    ensures
        <i64 as FromLua>::accepts(x.lua_datum()),
        forall|y: i64| <i64 as FromLua>::converts(x.lua_datum(), y) ==> y == x,
{
    assert(((x as i64) as i64) == x) by (bit_vector);
}

impl ToLua for u64 {
    open spec fn lua_datum(&self) -> Datum {
        Datum::Int(*self as i64)
    }

    fn to_lua<H>(self, state: &mut State<H>) {
        state.push_integer(self as i64);
    }
}

impl FromLua for u64 {
    /// Every integer converts: the type has as many values as the VM's
    /// integers, and the conversion is the two's-complement bijection.
    open spec fn accepts(d: Datum) -> bool {
        d is Int
    }

    open spec fn converts(d: Datum, x: u64) -> bool {
        d matches Datum::Int(i) && x == i as u64
    }

    open spec fn wanted() -> Type {
        Type::Number
    }

    fn wanted_type() -> (r: Type) {
        Type::Number
    }

    fn from_lua<H>(state: &State<H>, index: Index) -> (r: Option<u64>) {
        match state.to_integerx(index) {
            Some(i) => Some(i as u64),
            None => None,
        }
    }
}

/// An integer read back from the slot it was pushed as is the integer itself.
pub proof fn lemma_round_trip_u64(x: u64)
    ensures
        <u64 as FromLua>::accepts(x.lua_datum()),
        forall|y: u64| <u64 as FromLua>::converts(x.lua_datum(), y) ==> y == x,
{
    assert(((x as i64) as u64) == x) by (bit_vector);
}

impl ToLua for isize {
    open spec fn lua_datum(&self) -> Datum {
        Datum::Int(*self as i64)
    }

    fn to_lua<H>(self, state: &mut State<H>) {
        state.push_integer(self as i64);
    }
}

impl FromLua for isize {
    /// Every integer converts: the type has as many values as the VM's
    /// integers, and the conversion is the two's-complement bijection.
    open spec fn accepts(d: Datum) -> bool {
        d is Int
    }

    open spec fn converts(d: Datum, x: isize) -> bool {
        d matches Datum::Int(i) && x == i as isize
    }

    open spec fn wanted() -> Type {
        Type::Number
    }

    fn wanted_type() -> (r: Type) {
        Type::Number
    }

    fn from_lua<H>(state: &State<H>, index: Index) -> (r: Option<isize>) {
        match state.to_integerx(index) {
            Some(i) => Some(i as isize),
            None => None,
        }
    }
}

/// An integer read back from the slot it was pushed as is the integer itself.
pub proof fn lemma_round_trip_isize(x: isize)
    ensures
        <isize as FromLua>::accepts(x.lua_datum()),
        forall|y: isize| <isize as FromLua>::converts(x.lua_datum(), y) ==> y == x,
{
    assert(((x as i64) as isize) == x) by (bit_vector);
}

impl ToLua for usize {
    open spec fn lua_datum(&self) -> Datum {
        Datum::Int(*self as i64)
    }

    fn to_lua<H>(self, state: &mut State<H>) {
        state.push_integer(self as i64);
    }
}

impl FromLua for usize {
    /// Every integer converts: the type has as many values as the VM's
    /// integers, and the conversion is the two's-complement bijection.
    open spec fn accepts(d: Datum) -> bool {
        d is Int
    }

    open spec fn converts(d: Datum, x: usize) -> bool {
        d matches Datum::Int(i) && x == i as usize
    }

    open spec fn wanted() -> Type {
        Type::Number
    }

    fn wanted_type() -> (r: Type) {
        Type::Number
    }

    fn from_lua<H>(state: &State<H>, index: Index) -> (r: Option<usize>) {
        match state.to_integerx(index) {
            Some(i) => Some(i as usize),
            None => None,
        }
    }
}

/// An integer read back from the slot it was pushed as is the integer itself.
pub proof fn lemma_round_trip_usize(x: usize)
    ensures
        <usize as FromLua>::accepts(x.lua_datum()),
        forall|y: usize| <usize as FromLua>::converts(x.lua_datum(), y) ==> y == x,
{
    assert(((x as i64) as usize) == x) by (bit_vector);
}

impl ToLua for bool {
    open spec fn lua_datum(&self) -> Datum {
        Datum::Bool(*self)
    }

    fn to_lua<H>(self, state: &mut State<H>) {
        state.push_bool(self);
    }
}

impl FromLua for bool {
    /// Every slot converts, by the VM's truthiness.
    open spec fn accepts(d: Datum) -> bool {
        true
    }

    open spec fn converts(d: Datum, x: bool) -> bool {
        x == truthy(d)
    }

    open spec fn wanted() -> Type {
        Type::Boolean
    }

    fn wanted_type() -> (r: Type) {
        Type::Boolean
    }

    fn from_lua<H>(state: &State<H>, index: Index) -> (r: Option<bool>) {
        Some(state.to_bool(index))
    }
}

/// A boolean read back from the slot it was pushed as is the boolean itself.
pub proof fn lemma_round_trip_bool(x: bool)
    ensures
        <bool as FromLua>::accepts(x.lua_datum()),
        forall|y: bool| <bool as FromLua>::converts(x.lua_datum(), y) ==> y == x,
{
}

impl ToLua for StrictBool {
    open spec fn lua_datum(&self) -> Datum {
        Datum::Bool(self.0)
    }

    fn to_lua<H>(self, state: &mut State<H>) {
        state.push_bool(self.0);
    }
}

impl FromLua for StrictBool {
    open spec fn accepts(d: Datum) -> bool {
        d is Bool
    }

    open spec fn converts(d: Datum, x: StrictBool) -> bool {
        d == Datum::Bool(x.0)
    }

    open spec fn wanted() -> Type {
        Type::Boolean
    }

    fn wanted_type() -> (r: Type) {
        Type::Boolean
    }

    fn from_lua<H>(state: &State<H>, index: Index) -> (r: Option<StrictBool>) {
        if state.is_bool(index) {
            Some(StrictBool(state.to_bool(index)))
        } else {
            None
        }
    }
}

/// A strict boolean read back from the slot it was pushed as is itself.
pub proof fn lemma_round_trip_strict_bool(x: StrictBool)
    ensures
        <StrictBool as FromLua>::accepts(x.lua_datum()),
        forall|y: StrictBool| <StrictBool as FromLua>::converts(x.lua_datum(), y) ==> y == x,
{
}

impl ToLua for NumberBits {
    open spec fn lua_datum(&self) -> Datum {
        Datum::Num(self.0)
    }

    fn to_lua<H>(self, state: &mut State<H>) {
        state.push_number(self.0);
    }
}

impl FromLua for NumberBits {
    open spec fn accepts(d: Datum) -> bool {
        d is Num
    }

    open spec fn converts(d: Datum, x: NumberBits) -> bool {
        d == Datum::Num(x.0)
    }

    open spec fn wanted() -> Type {
        Type::Number
    }

    fn wanted_type() -> (r: Type) {
        Type::Number
    }

    fn from_lua<H>(state: &State<H>, index: Index) -> (r: Option<NumberBits>) {
        match state.to_numberx(index) {
            Some(n) => Some(NumberBits(n)),
            None => None,
        }
    }
}

/// A float read back from the slot it was pushed as has the same bit
/// pattern, NaN payloads included.
pub proof fn lemma_round_trip_number(x: NumberBits)
    ensures
        <NumberBits as FromLua>::accepts(x.lua_datum()),
        forall|y: NumberBits| <NumberBits as FromLua>::converts(x.lua_datum(), y) ==> y == x,
{
}

impl<'a> ToLua for &'a str {
    open spec fn lua_datum(&self) -> Datum {
        Datum::Str(self.spec_bytes())
    }

    fn to_lua<H>(self, state: &mut State<H>) {
        state.push_string(self);
    }
}

impl ToLua for String {
    open spec fn lua_datum(&self) -> Datum {
        Datum::Str(encode_utf8(self@))
    }

    fn to_lua<H>(self, state: &mut State<H>) {
        state.push_string(self.as_str());
    }
}

impl FromLua for String {
    open spec fn accepts(d: Datum) -> bool {
        d matches Datum::Str(b) && valid_utf8(b)
    }

    open spec fn converts(d: Datum, x: String) -> bool {
        d == Datum::Str(encode_utf8(x@))
    }

    open spec fn wanted() -> Type {
        Type::String
    }

    fn wanted_type() -> (r: Type) {
        Type::String
    }

    fn from_lua<H>(state: &State<H>, index: Index) -> (r: Option<String>) {
        match state.to_str(index) {
            Some(s) => Some(s.to_owned()),
            None => None,
        }
    }
}

/// A string read back from the slot it was pushed as has the same characters.
pub proof fn lemma_round_trip_string(x: String)
    ensures
        <String as FromLua>::accepts(x.lua_datum()),
        forall|y: String| <String as FromLua>::converts(x.lua_datum(), y) ==> y@ == x@,
{
    encode_utf8_valid_utf8(x@);
    encode_utf8_decode_utf8(x@);
    assert forall|y: String| <String as FromLua>::converts(x.lua_datum(), y) implies y@ == x@ by {
        encode_utf8_decode_utf8(y@);
    }
}

impl<'a> ToLua for &'a [u8] {
    open spec fn lua_datum(&self) -> Datum {
        Datum::Str(self@)
    }

    fn to_lua<H>(self, state: &mut State<H>) {
        state.push_bytes(self);
    }
}

impl FromLua for Vec<u8> {
    open spec fn accepts(d: Datum) -> bool {
        d is Str
    }

    open spec fn converts(d: Datum, x: Vec<u8>) -> bool {
        d == Datum::Str(x@)
    }

    open spec fn wanted() -> Type {
        Type::String
    }

    fn wanted_type() -> (r: Type) {
        Type::String
    }

    fn from_lua<H>(state: &State<H>, index: Index) -> (r: Option<Vec<u8>>) {
        match state.to_bytes(index) {
            Some(b) => Some(vstd::slice::slice_to_vec(b)),
            None => None,
        }
    }
}

/// Bytes read back from the slot they were pushed as are the same bytes.
pub proof fn lemma_round_trip_bytes(x: &[u8])
    ensures
        <Vec<u8> as FromLua>::accepts(x.lua_datum()),
        forall|y: Vec<u8>| <Vec<u8> as FromLua>::converts(x.lua_datum(), y) ==> y@ == x@,
{
}

impl<T: ToLua> ToLua for Option<T> {
    open spec fn lua_datum(&self) -> Datum {
        match self {
            Some(v) => v.lua_datum(),
            None => Datum::Nil,
        }
    }

    fn to_lua<H>(self, state: &mut State<H>) {
        match self {
            Some(v) => v.to_lua(state),
            None => state.push_nil(),
        }
    }
}

impl<T: FromLua> FromLua for Option<T> {
    /// Every slot converts: one that does not convert to `T` gives `None`.
    open spec fn accepts(d: Datum) -> bool {
        true
    }

    open spec fn converts(d: Datum, x: Option<T>) -> bool {
        match x {
            Some(v) => T::accepts(d) && T::converts(d, v),
            None => !T::accepts(d),
        }
    }

    open spec fn wanted() -> Type {
        T::wanted()
    }

    fn wanted_type() -> (r: Type) {
        T::wanted_type()
    }

    fn from_lua<H>(state: &State<H>, index: Index) -> (r: Option<Option<T>>) {
        Some(T::from_lua(state, index))
    }
}

/// A fixed number of host values, pushed as that many slots.
pub trait ToLuaMulti: Sized {
    /// Number of slots the values take.
    const COUNT: usize;

    /// The datums the values become, first value first.
    spec fn lua_datums(&self) -> Seq<Datum>;

    proof fn lemma_count(&self)
        ensures
            self.lua_datums().len() == Self::COUNT,
    ;

    /// Pushes the values left to right.
    fn to_lua<H>(self, state: &mut State<H>)
        requires
            old(state).wf(),
            old(state).room(Self::COUNT as int),
        ensures
            final(state).wf(),
            final(state).base() == old(state).base(),
            final(state).same_heap(old(state)),
            final(state).view() == old(state).view() + self.lua_datums(),
    ;
}

/// A fixed number of host values, read from as many consecutive slots.
pub trait FromLuaMulti: Sized {
    /// Number of slots the values take.
    const COUNT: usize;

    /// Whether each datum converts to its value.
    spec fn accepts_all(ds: Seq<Datum>) -> bool;

    /// Whether `x` is what the datums convert to.
    spec fn converts_all(ds: Seq<Datum>, x: Self) -> bool;

    /// `COUNT`, as a spec value.
    spec fn arity() -> nat;

    proof fn lemma_arity()
        ensures
            Self::COUNT == Self::arity(),
    ;

    /// Whether datum `d` converts to the `i`-th value.
    spec fn accepts_nth(d: Datum, i: int) -> bool;

    /// The type that the `i`-th slot must have.
    spec fn wanted_nth(i: int) -> Type;

    /// The argument error for the first of the `COUNT` slots from `begin`
    /// on that does not convert.
    fn reject<H>(state: &State<H>, begin: Index) -> (e: ArgError)
        requires
            state.wf(),
            begin > i32::MIN,
            begin + Self::COUNT <= i32::MAX,
            !Self::accepts_all(state.run(begin as int, Self::COUNT as nat)),
        ensures
            exists|j: int| #![trigger Self::wanted_nth(j)] 0 <= j < Self::COUNT && e.index == begin + j
                && !Self::accepts_nth(state.at(begin + j), j)
                && (forall|k: int| 0 <= k < j ==> Self::accepts_nth(#[trigger] state.at(begin + k), k))
                && e.expected == Self::wanted_nth(j) && e.actual == type_of_datum(state.at(begin + j)),
    ;

    /// The values read from `COUNT` slots from `begin` on, or `None` if any
    /// of them does not convert.
    fn from_lua<H>(state: &State<H>, begin: Index) -> (r: Option<Self>)
        requires
            state.wf(),
            begin > i32::MIN,
            begin + Self::COUNT <= i32::MAX,
        ensures
            r is Some == Self::accepts_all(state.run(begin as int, Self::COUNT as nat)),
            r matches Some(x) ==> Self::converts_all(state.run(begin as int, Self::COUNT as nat), x),
    ;
}

impl<T: ToLua> ToLuaMulti for T {
    const COUNT: usize = 1;

    open spec fn lua_datums(&self) -> Seq<Datum> {
        seq![self.lua_datum()]
    }

    proof fn lemma_count(&self) {
    }

    fn to_lua<H>(self, state: &mut State<H>) {
        let ghost ds = seq![self.lua_datum()];
        ToLua::to_lua(self, state);
        proof { assert(state.view() =~= old(state).view() + ds); }
    }
}

impl<T: FromLua> FromLuaMulti for T {
    const COUNT: usize = 1;

    open spec fn accepts_all(ds: Seq<Datum>) -> bool {
        T::accepts(ds[0])
    }

    open spec fn converts_all(ds: Seq<Datum>, x: T) -> bool {
        T::converts(ds[0], x)
    }

    open spec fn arity() -> nat {
        1
    }

    proof fn lemma_arity() {
    }

    open spec fn accepts_nth(d: Datum, i: int) -> bool {
        i != 0 || T::accepts(d)
    }

    open spec fn wanted_nth(i: int) -> Type {
        T::wanted()
    }

    fn from_lua<H>(state: &State<H>, begin: Index) -> (r: Option<T>) {
        <T as FromLua>::from_lua(state, begin)
    }

    fn reject<H>(state: &State<H>, begin: Index) -> (e: ArgError) {
        let e = ArgError { index: begin, expected: T::wanted_type(), actual: state.type_of(begin) };
        proof {
            assert(state.run(begin as int, 1)[0] == state.at(begin + 0));
            assert(Self::wanted_nth(0) == T::wanted());
        }
        e
    }
}

impl ToLuaMulti for () {
    const COUNT: usize = 0;

    open spec fn lua_datums(&self) -> Seq<Datum> {
        Seq::<Datum>::empty()
    }

    proof fn lemma_count(&self) {
    }

    fn to_lua<H>(self, state: &mut State<H>) {
        let ghost ds = self.lua_datums();
        let () = self;
        proof { old(state).lemma_same_heap_refl(); }

        proof { assert(state.view() =~= old(state).view() + ds); }
    }
}

impl FromLuaMulti for () {
    const COUNT: usize = 0;

    open spec fn accepts_all(ds: Seq<Datum>) -> bool {
        true
    }

    open spec fn converts_all(ds: Seq<Datum>, x: ()) -> bool {
        true
    }

    open spec fn arity() -> nat {
        0
    }

    proof fn lemma_arity() {
    }

    open spec fn accepts_nth(d: Datum, i: int) -> bool {
        true
    }

    open spec fn wanted_nth(i: int) -> Type {
        { Type::NoValue }
    }

    fn from_lua<H>(state: &State<H>, begin: Index) -> (r: Option<()>) {

        Some(())
    }

    fn reject<H>(state: &State<H>, begin: Index) -> (e: ArgError) {
        let ghost ds = state.run(begin as int, 0);
        ArgError { index: begin, expected: Type::NoValue, actual: Type::NoValue }
    }
}

impl<A: ToLua> ToLuaMulti for (A, ) {
    const COUNT: usize = 1;

    open spec fn lua_datums(&self) -> Seq<Datum> {
        seq![self.0.lua_datum()]
    }

    proof fn lemma_count(&self) {
    }

    fn to_lua<H>(self, state: &mut State<H>) {
        let ghost ds = self.lua_datums();
        let (a, ) = self;
        proof { old(state).lemma_same_heap_refl(); }
        let ghost before_a = *state;
        ToLua::to_lua(a, state);
        proof { State::lemma_same_heap_trans(&*state, &before_a, &*old(state)); }
        proof { assert(state.view() =~= old(state).view() + ds); }
    }
}

impl<A: FromLua> FromLuaMulti for (A, ) {
    const COUNT: usize = 1;

    open spec fn accepts_all(ds: Seq<Datum>) -> bool {
        A::accepts(ds[0])
    }

    open spec fn converts_all(ds: Seq<Datum>, x: (A, )) -> bool {
        A::converts(ds[0], x.0)
    }

    open spec fn arity() -> nat {
        1
    }

    proof fn lemma_arity() {
    }

    open spec fn accepts_nth(d: Datum, i: int) -> bool {
        (i != 0 || A::accepts(d))
    }

    open spec fn wanted_nth(i: int) -> Type {
        if i == 0 { A::wanted() } else { Type::NoValue }
    }

    fn from_lua<H>(state: &State<H>, begin: Index) -> (r: Option<(A, )>) {
        let a = match <A as FromLua>::from_lua(state, begin + 0) {
            Some(v) => v,
            None => { return None; },
        };
        Some((a, ))
    }

    fn reject<H>(state: &State<H>, begin: Index) -> (e: ArgError) {
        let ghost ds = state.run(begin as int, 1);
        proof { assert(ds[0] == state.at(begin + 0)); }
        {
            proof {
                assert(Self::wanted_nth(0) == A::wanted());
                assert forall|k: int| 0 <= k < 0 implies Self::accepts_nth(#[trigger] state.at(begin + k), k) by {
                    
                }
            }
            ArgError { index: begin + 0, expected: A::wanted_type(), actual: state.type_of(begin + 0) }
        }
    }
}

impl<A: ToLua, B: ToLua> ToLuaMulti for (A, B, ) {
    const COUNT: usize = 2;

    open spec fn lua_datums(&self) -> Seq<Datum> {
        seq![self.0.lua_datum(), self.1.lua_datum()]
    }

    proof fn lemma_count(&self) {
    }

    fn to_lua<H>(self, state: &mut State<H>) {
        let ghost ds = self.lua_datums();
        let (a, b, ) = self;
        proof { old(state).lemma_same_heap_refl(); }
        let ghost before_a = *state;
        ToLua::to_lua(a, state);
        proof { State::lemma_same_heap_trans(&*state, &before_a, &*old(state)); }
        let ghost before_b = *state;
        ToLua::to_lua(b, state);
        proof { State::lemma_same_heap_trans(&*state, &before_b, &*old(state)); }
        proof { assert(state.view() =~= old(state).view() + ds); }
    }
}

impl<A: FromLua, B: FromLua> FromLuaMulti for (A, B, ) {
    const COUNT: usize = 2;

    open spec fn accepts_all(ds: Seq<Datum>) -> bool {
        A::accepts(ds[0]) && B::accepts(ds[1])
    }

    open spec fn converts_all(ds: Seq<Datum>, x: (A, B, )) -> bool {
        A::converts(ds[0], x.0) && B::converts(ds[1], x.1)
    }

    open spec fn arity() -> nat {
        2
    }

    proof fn lemma_arity() {
    }

    open spec fn accepts_nth(d: Datum, i: int) -> bool {
        (i != 0 || A::accepts(d)) && (i != 1 || B::accepts(d))
    }

    open spec fn wanted_nth(i: int) -> Type {
        if i == 0 { A::wanted() } else if i == 1 { B::wanted() } else { Type::NoValue }
    }

    fn from_lua<H>(state: &State<H>, begin: Index) -> (r: Option<(A, B, )>) {
        let a = match <A as FromLua>::from_lua(state, begin + 0) {
            Some(v) => v,
            None => { return None; },
        };
        let b = match <B as FromLua>::from_lua(state, begin + 1) {
            Some(v) => v,
            None => { return None; },
        };
        Some((a, b, ))
    }

    fn reject<H>(state: &State<H>, begin: Index) -> (e: ArgError) {
        let ghost ds = state.run(begin as int, 2);
        proof { assert(ds[0] == state.at(begin + 0)); }
        if <A as FromLua>::from_lua(state, begin + 0).is_none() {
            proof {
                assert(Self::wanted_nth(0) == A::wanted());
                assert forall|k: int| 0 <= k < 0 implies Self::accepts_nth(#[trigger] state.at(begin + k), k) by {
                    
                }
            }
            return ArgError { index: begin + 0, expected: A::wanted_type(), actual: state.type_of(begin + 0) };
        }
        proof { assert(ds[1] == state.at(begin + 1)); }
        {
            proof {
                assert(Self::wanted_nth(1) == B::wanted());
                assert forall|k: int| 0 <= k < 1 implies Self::accepts_nth(#[trigger] state.at(begin + k), k) by {
                    if k == 0 { assert(state.at(begin + k) == ds[0]); }
                }
            }
            ArgError { index: begin + 1, expected: B::wanted_type(), actual: state.type_of(begin + 1) }
        }
    }
}

impl<A: ToLua, B: ToLua, C: ToLua> ToLuaMulti for (A, B, C, ) {
    const COUNT: usize = 3;

    open spec fn lua_datums(&self) -> Seq<Datum> {
        seq![self.0.lua_datum(), self.1.lua_datum(), self.2.lua_datum()]
    }

    proof fn lemma_count(&self) {
    }

    fn to_lua<H>(self, state: &mut State<H>) {
        let ghost ds = self.lua_datums();
        let (a, b, c, ) = self;
        proof { old(state).lemma_same_heap_refl(); }
        let ghost before_a = *state;
        ToLua::to_lua(a, state);
        proof { State::lemma_same_heap_trans(&*state, &before_a, &*old(state)); }
        let ghost before_b = *state;
        ToLua::to_lua(b, state);
        proof { State::lemma_same_heap_trans(&*state, &before_b, &*old(state)); }
        let ghost before_c = *state;
        ToLua::to_lua(c, state);
        proof { State::lemma_same_heap_trans(&*state, &before_c, &*old(state)); }
        proof { assert(state.view() =~= old(state).view() + ds); }
    }
}

impl<A: FromLua, B: FromLua, C: FromLua> FromLuaMulti for (A, B, C, ) {
    const COUNT: usize = 3;

    open spec fn accepts_all(ds: Seq<Datum>) -> bool {
        A::accepts(ds[0]) && B::accepts(ds[1]) && C::accepts(ds[2])
    }

    open spec fn converts_all(ds: Seq<Datum>, x: (A, B, C, )) -> bool {
        A::converts(ds[0], x.0) && B::converts(ds[1], x.1) && C::converts(ds[2], x.2)
    }

    open spec fn arity() -> nat {
        3
    }

    proof fn lemma_arity() {
    }

    open spec fn accepts_nth(d: Datum, i: int) -> bool {
        (i != 0 || A::accepts(d)) && (i != 1 || B::accepts(d)) && (i != 2 || C::accepts(d))
    }

    open spec fn wanted_nth(i: int) -> Type {
        if i == 0 { A::wanted() } else if i == 1 { B::wanted() } else if i == 2 { C::wanted() } else { Type::NoValue }
    }

    fn from_lua<H>(state: &State<H>, begin: Index) -> (r: Option<(A, B, C, )>) {
        let a = match <A as FromLua>::from_lua(state, begin + 0) {
            Some(v) => v,
            None => { return None; },
        };
        let b = match <B as FromLua>::from_lua(state, begin + 1) {
            Some(v) => v,
            None => { return None; },
        };
        let c = match <C as FromLua>::from_lua(state, begin + 2) {
            Some(v) => v,
            None => { return None; },
        };
        Some((a, b, c, ))
    }

    fn reject<H>(state: &State<H>, begin: Index) -> (e: ArgError) {
        let ghost ds = state.run(begin as int, 3);
        proof { assert(ds[0] == state.at(begin + 0)); }
        if <A as FromLua>::from_lua(state, begin + 0).is_none() {
            proof {
                assert(Self::wanted_nth(0) == A::wanted());
                assert forall|k: int| 0 <= k < 0 implies Self::accepts_nth(#[trigger] state.at(begin + k), k) by {
                    
                }
            }
            return ArgError { index: begin + 0, expected: A::wanted_type(), actual: state.type_of(begin + 0) };
        }
        proof { assert(ds[1] == state.at(begin + 1)); }
        if <B as FromLua>::from_lua(state, begin + 1).is_none() {
            proof {
                assert(Self::wanted_nth(1) == B::wanted());
                assert forall|k: int| 0 <= k < 1 implies Self::accepts_nth(#[trigger] state.at(begin + k), k) by {
                    if k == 0 { assert(state.at(begin + k) == ds[0]); }
                }
            }
            return ArgError { index: begin + 1, expected: B::wanted_type(), actual: state.type_of(begin + 1) };
        }
        proof { assert(ds[2] == state.at(begin + 2)); }
        {
            proof {
                assert(Self::wanted_nth(2) == C::wanted());
                assert forall|k: int| 0 <= k < 2 implies Self::accepts_nth(#[trigger] state.at(begin + k), k) by {
                    if k == 0 { assert(state.at(begin + k) == ds[0]); } else if k == 1 { assert(state.at(begin + k) == ds[1]); }
                }
            }
            ArgError { index: begin + 2, expected: C::wanted_type(), actual: state.type_of(begin + 2) }
        }
    }
}

impl<A: ToLua, B: ToLua, C: ToLua, D: ToLua> ToLuaMulti for (A, B, C, D, ) {
    const COUNT: usize = 4;

    open spec fn lua_datums(&self) -> Seq<Datum> {
        seq![self.0.lua_datum(), self.1.lua_datum(), self.2.lua_datum(), self.3.lua_datum()]
    }

    proof fn lemma_count(&self) {
    }

    fn to_lua<H>(self, state: &mut State<H>) {
        let ghost ds = self.lua_datums();
        let (a, b, c, d, ) = self;
        proof { old(state).lemma_same_heap_refl(); }
        let ghost before_a = *state;
        ToLua::to_lua(a, state);
        proof { State::lemma_same_heap_trans(&*state, &before_a, &*old(state)); }
        let ghost before_b = *state;
        ToLua::to_lua(b, state);
        proof { State::lemma_same_heap_trans(&*state, &before_b, &*old(state)); }
        let ghost before_c = *state;
        ToLua::to_lua(c, state);
        proof { State::lemma_same_heap_trans(&*state, &before_c, &*old(state)); }
        let ghost before_d = *state;
        ToLua::to_lua(d, state);
        proof { State::lemma_same_heap_trans(&*state, &before_d, &*old(state)); }
        proof { assert(state.view() =~= old(state).view() + ds); }
    }
}

impl<A: FromLua, B: FromLua, C: FromLua, D: FromLua> FromLuaMulti for (A, B, C, D, ) {
    const COUNT: usize = 4;

    open spec fn accepts_all(ds: Seq<Datum>) -> bool {
        A::accepts(ds[0]) && B::accepts(ds[1]) && C::accepts(ds[2]) && D::accepts(ds[3])
    }

    open spec fn converts_all(ds: Seq<Datum>, x: (A, B, C, D, )) -> bool {
        A::converts(ds[0], x.0) && B::converts(ds[1], x.1) && C::converts(ds[2], x.2) && D::converts(ds[3], x.3)
    }

    open spec fn arity() -> nat {
        4
    }

    proof fn lemma_arity() {
    }

    open spec fn accepts_nth(d: Datum, i: int) -> bool {
        (i != 0 || A::accepts(d)) && (i != 1 || B::accepts(d)) && (i != 2 || C::accepts(d)) && (i != 3 || D::accepts(d))
    }

    open spec fn wanted_nth(i: int) -> Type {
        if i == 0 { A::wanted() } else if i == 1 { B::wanted() } else if i == 2 { C::wanted() } else if i == 3 { D::wanted() } else { Type::NoValue }
    }

    fn from_lua<H>(state: &State<H>, begin: Index) -> (r: Option<(A, B, C, D, )>) {
        let a = match <A as FromLua>::from_lua(state, begin + 0) {
            Some(v) => v,
            None => { return None; },
        };
        let b = match <B as FromLua>::from_lua(state, begin + 1) {
            Some(v) => v,
            None => { return None; },
        };
        let c = match <C as FromLua>::from_lua(state, begin + 2) {
            Some(v) => v,
            None => { return None; },
        };
        let d = match <D as FromLua>::from_lua(state, begin + 3) {
            Some(v) => v,
            None => { return None; },
        };
        Some((a, b, c, d, ))
    }

    fn reject<H>(state: &State<H>, begin: Index) -> (e: ArgError) {
        let ghost ds = state.run(begin as int, 4);
        proof { assert(ds[0] == state.at(begin + 0)); }
        if <A as FromLua>::from_lua(state, begin + 0).is_none() {
            proof {
                assert(Self::wanted_nth(0) == A::wanted());
                assert forall|k: int| 0 <= k < 0 implies Self::accepts_nth(#[trigger] state.at(begin + k), k) by {
                    
                }
            }
            return ArgError { index: begin + 0, expected: A::wanted_type(), actual: state.type_of(begin + 0) };
        }
        proof { assert(ds[1] == state.at(begin + 1)); }
        if <B as FromLua>::from_lua(state, begin + 1).is_none() {
            proof {
                assert(Self::wanted_nth(1) == B::wanted());
                assert forall|k: int| 0 <= k < 1 implies Self::accepts_nth(#[trigger] state.at(begin + k), k) by {
                    if k == 0 { assert(state.at(begin + k) == ds[0]); }
                }
            }
            return ArgError { index: begin + 1, expected: B::wanted_type(), actual: state.type_of(begin + 1) };
        }
        proof { assert(ds[2] == state.at(begin + 2)); }
        if <C as FromLua>::from_lua(state, begin + 2).is_none() {
            proof {
                assert(Self::wanted_nth(2) == C::wanted());
                assert forall|k: int| 0 <= k < 2 implies Self::accepts_nth(#[trigger] state.at(begin + k), k) by {
                    if k == 0 { assert(state.at(begin + k) == ds[0]); } else if k == 1 { assert(state.at(begin + k) == ds[1]); }
                }
            }
            return ArgError { index: begin + 2, expected: C::wanted_type(), actual: state.type_of(begin + 2) };
        }
        proof { assert(ds[3] == state.at(begin + 3)); }
        {
            proof {
                assert(Self::wanted_nth(3) == D::wanted());
                assert forall|k: int| 0 <= k < 3 implies Self::accepts_nth(#[trigger] state.at(begin + k), k) by {
                    if k == 0 { assert(state.at(begin + k) == ds[0]); } else if k == 1 { assert(state.at(begin + k) == ds[1]); } else if k == 2 { assert(state.at(begin + k) == ds[2]); }
                }
            }
            ArgError { index: begin + 3, expected: D::wanted_type(), actual: state.type_of(begin + 3) }
        }
    }
}

impl<A: ToLua, B: ToLua, C: ToLua, D: ToLua, E: ToLua> ToLuaMulti for (A, B, C, D, E, ) {
    const COUNT: usize = 5;

    open spec fn lua_datums(&self) -> Seq<Datum> {
        seq![self.0.lua_datum(), self.1.lua_datum(), self.2.lua_datum(), self.3.lua_datum(), self.4.lua_datum()]
    }

    proof fn lemma_count(&self) {
    }

    fn to_lua<H>(self, state: &mut State<H>) {
        let ghost ds = self.lua_datums();
        let (a, b, c, d, e, ) = self;
        proof { old(state).lemma_same_heap_refl(); }
        let ghost before_a = *state;
        ToLua::to_lua(a, state);
        proof { State::lemma_same_heap_trans(&*state, &before_a, &*old(state)); }
        let ghost before_b = *state;
        ToLua::to_lua(b, state);
        proof { State::lemma_same_heap_trans(&*state, &before_b, &*old(state)); }
        let ghost before_c = *state;
        ToLua::to_lua(c, state);
        proof { State::lemma_same_heap_trans(&*state, &before_c, &*old(state)); }
        let ghost before_d = *state;
        ToLua::to_lua(d, state);
        proof { State::lemma_same_heap_trans(&*state, &before_d, &*old(state)); }
        let ghost before_e = *state;
        ToLua::to_lua(e, state);
        proof { State::lemma_same_heap_trans(&*state, &before_e, &*old(state)); }
        proof { assert(state.view() =~= old(state).view() + ds); }
    }
}

impl<A: FromLua, B: FromLua, C: FromLua, D: FromLua, E: FromLua> FromLuaMulti for (A, B, C, D, E, ) {
    const COUNT: usize = 5;

    open spec fn accepts_all(ds: Seq<Datum>) -> bool {
        A::accepts(ds[0]) && B::accepts(ds[1]) && C::accepts(ds[2]) && D::accepts(ds[3]) && E::accepts(ds[4])
    }

    open spec fn converts_all(ds: Seq<Datum>, x: (A, B, C, D, E, )) -> bool {
        A::converts(ds[0], x.0) && B::converts(ds[1], x.1) && C::converts(ds[2], x.2) && D::converts(ds[3], x.3) && E::converts(ds[4], x.4)
    }

    open spec fn arity() -> nat {
        5
    }

    proof fn lemma_arity() {
    }

    open spec fn accepts_nth(d: Datum, i: int) -> bool {
        (i != 0 || A::accepts(d)) && (i != 1 || B::accepts(d)) && (i != 2 || C::accepts(d)) && (i != 3 || D::accepts(d)) && (i != 4 || E::accepts(d))
    }

    open spec fn wanted_nth(i: int) -> Type {
        if i == 0 { A::wanted() } else if i == 1 { B::wanted() } else if i == 2 { C::wanted() } else if i == 3 { D::wanted() } else if i == 4 { E::wanted() } else { Type::NoValue }
    }

    fn from_lua<H>(state: &State<H>, begin: Index) -> (r: Option<(A, B, C, D, E, )>) {
        let a = match <A as FromLua>::from_lua(state, begin + 0) {
            Some(v) => v,
            None => { return None; },
        };
        let b = match <B as FromLua>::from_lua(state, begin + 1) {
            Some(v) => v,
            None => { return None; },
        };
        let c = match <C as FromLua>::from_lua(state, begin + 2) {
            Some(v) => v,
            None => { return None; },
        };
        let d = match <D as FromLua>::from_lua(state, begin + 3) {
            Some(v) => v,
            None => { return None; },
        };
        let e = match <E as FromLua>::from_lua(state, begin + 4) {
            Some(v) => v,
            None => { return None; },
        };
        Some((a, b, c, d, e, ))
    }

    fn reject<H>(state: &State<H>, begin: Index) -> (e: ArgError) {
        let ghost ds = state.run(begin as int, 5);
        proof { assert(ds[0] == state.at(begin + 0)); }
        if <A as FromLua>::from_lua(state, begin + 0).is_none() {
            proof {
                assert(Self::wanted_nth(0) == A::wanted());
                assert forall|k: int| 0 <= k < 0 implies Self::accepts_nth(#[trigger] state.at(begin + k), k) by {
                    
                }
            }
            return ArgError { index: begin + 0, expected: A::wanted_type(), actual: state.type_of(begin + 0) };
        }
        proof { assert(ds[1] == state.at(begin + 1)); }
        if <B as FromLua>::from_lua(state, begin + 1).is_none() {
            proof {
                assert(Self::wanted_nth(1) == B::wanted());
                assert forall|k: int| 0 <= k < 1 implies Self::accepts_nth(#[trigger] state.at(begin + k), k) by {
                    if k == 0 { assert(state.at(begin + k) == ds[0]); }
                }
            }
            return ArgError { index: begin + 1, expected: B::wanted_type(), actual: state.type_of(begin + 1) };
        }
        proof { assert(ds[2] == state.at(begin + 2)); }
        if <C as FromLua>::from_lua(state, begin + 2).is_none() {
            proof {
                assert(Self::wanted_nth(2) == C::wanted());
                assert forall|k: int| 0 <= k < 2 implies Self::accepts_nth(#[trigger] state.at(begin + k), k) by {
                    if k == 0 { assert(state.at(begin + k) == ds[0]); } else if k == 1 { assert(state.at(begin + k) == ds[1]); }
                }
            }
            return ArgError { index: begin + 2, expected: C::wanted_type(), actual: state.type_of(begin + 2) };
        }
        proof { assert(ds[3] == state.at(begin + 3)); }
        if <D as FromLua>::from_lua(state, begin + 3).is_none() {
            proof {
                assert(Self::wanted_nth(3) == D::wanted());
                assert forall|k: int| 0 <= k < 3 implies Self::accepts_nth(#[trigger] state.at(begin + k), k) by {
                    if k == 0 { assert(state.at(begin + k) == ds[0]); } else if k == 1 { assert(state.at(begin + k) == ds[1]); } else if k == 2 { assert(state.at(begin + k) == ds[2]); }
                }
            }
            return ArgError { index: begin + 3, expected: D::wanted_type(), actual: state.type_of(begin + 3) };
        }
        proof { assert(ds[4] == state.at(begin + 4)); }
        {
            proof {
                assert(Self::wanted_nth(4) == E::wanted());
                assert forall|k: int| 0 <= k < 4 implies Self::accepts_nth(#[trigger] state.at(begin + k), k) by {
                    if k == 0 { assert(state.at(begin + k) == ds[0]); } else if k == 1 { assert(state.at(begin + k) == ds[1]); } else if k == 2 { assert(state.at(begin + k) == ds[2]); } else if k == 3 { assert(state.at(begin + k) == ds[3]); }
                }
            }
            ArgError { index: begin + 4, expected: E::wanted_type(), actual: state.type_of(begin + 4) }
        }
    }
}

impl<A: ToLua, B: ToLua, C: ToLua, D: ToLua, E: ToLua, F: ToLua> ToLuaMulti for (A, B, C, D, E, F, ) {
    const COUNT: usize = 6;

    open spec fn lua_datums(&self) -> Seq<Datum> {
        seq![self.0.lua_datum(), self.1.lua_datum(), self.2.lua_datum(), self.3.lua_datum(), self.4.lua_datum(), self.5.lua_datum()]
    }

    proof fn lemma_count(&self) {
    }

    fn to_lua<H>(self, state: &mut State<H>) {
        let ghost ds = self.lua_datums();
        let (a, b, c, d, e, f, ) = self;
        proof { old(state).lemma_same_heap_refl(); }
        let ghost before_a = *state;
        ToLua::to_lua(a, state);
        proof { State::lemma_same_heap_trans(&*state, &before_a, &*old(state)); }
        let ghost before_b = *state;
        ToLua::to_lua(b, state);
        proof { State::lemma_same_heap_trans(&*state, &before_b, &*old(state)); }
        let ghost before_c = *state;
        ToLua::to_lua(c, state);
        proof { State::lemma_same_heap_trans(&*state, &before_c, &*old(state)); }
        let ghost before_d = *state;
        ToLua::to_lua(d, state);
        proof { State::lemma_same_heap_trans(&*state, &before_d, &*old(state)); }
        let ghost before_e = *state;
        ToLua::to_lua(e, state);
        proof { State::lemma_same_heap_trans(&*state, &before_e, &*old(state)); }
        let ghost before_f = *state;
        ToLua::to_lua(f, state);
        proof { State::lemma_same_heap_trans(&*state, &before_f, &*old(state)); }
        proof { assert(state.view() =~= old(state).view() + ds); }
    }
}

impl<A: FromLua, B: FromLua, C: FromLua, D: FromLua, E: FromLua, F: FromLua> FromLuaMulti for (A, B, C, D, E, F, ) {
    const COUNT: usize = 6;

    open spec fn accepts_all(ds: Seq<Datum>) -> bool {
        A::accepts(ds[0]) && B::accepts(ds[1]) && C::accepts(ds[2]) && D::accepts(ds[3]) && E::accepts(ds[4]) && F::accepts(ds[5])
    }

    open spec fn converts_all(ds: Seq<Datum>, x: (A, B, C, D, E, F, )) -> bool {
        A::converts(ds[0], x.0) && B::converts(ds[1], x.1) && C::converts(ds[2], x.2) && D::converts(ds[3], x.3) && E::converts(ds[4], x.4) && F::converts(ds[5], x.5)
    }

    open spec fn arity() -> nat {
        6
    }

    proof fn lemma_arity() {
    }

    open spec fn accepts_nth(d: Datum, i: int) -> bool {
        (i != 0 || A::accepts(d)) && (i != 1 || B::accepts(d)) && (i != 2 || C::accepts(d)) && (i != 3 || D::accepts(d)) && (i != 4 || E::accepts(d)) && (i != 5 || F::accepts(d))
    }

    open spec fn wanted_nth(i: int) -> Type {
        if i == 0 { A::wanted() } else if i == 1 { B::wanted() } else if i == 2 { C::wanted() } else if i == 3 { D::wanted() } else if i == 4 { E::wanted() } else if i == 5 { F::wanted() } else { Type::NoValue }
    }

    fn from_lua<H>(state: &State<H>, begin: Index) -> (r: Option<(A, B, C, D, E, F, )>) {
        let a = match <A as FromLua>::from_lua(state, begin + 0) {
            Some(v) => v,
            None => { return None; },
        };
        let b = match <B as FromLua>::from_lua(state, begin + 1) {
            Some(v) => v,
            None => { return None; },
        };
        let c = match <C as FromLua>::from_lua(state, begin + 2) {
            Some(v) => v,
            None => { return None; },
        };
        let d = match <D as FromLua>::from_lua(state, begin + 3) {
            Some(v) => v,
            None => { return None; },
        };
        let e = match <E as FromLua>::from_lua(state, begin + 4) {
            Some(v) => v,
            None => { return None; },
        };
        let f = match <F as FromLua>::from_lua(state, begin + 5) {
            Some(v) => v,
            None => { return None; },
        };
        Some((a, b, c, d, e, f, ))
    }

    fn reject<H>(state: &State<H>, begin: Index) -> (e: ArgError) {
        let ghost ds = state.run(begin as int, 6);
        proof { assert(ds[0] == state.at(begin + 0)); }
        if <A as FromLua>::from_lua(state, begin + 0).is_none() {
            proof {
                assert(Self::wanted_nth(0) == A::wanted());
                assert forall|k: int| 0 <= k < 0 implies Self::accepts_nth(#[trigger] state.at(begin + k), k) by {
                    
                }
            }
            return ArgError { index: begin + 0, expected: A::wanted_type(), actual: state.type_of(begin + 0) };
        }
        proof { assert(ds[1] == state.at(begin + 1)); }
        if <B as FromLua>::from_lua(state, begin + 1).is_none() {
            proof {
                assert(Self::wanted_nth(1) == B::wanted());
                assert forall|k: int| 0 <= k < 1 implies Self::accepts_nth(#[trigger] state.at(begin + k), k) by {
                    if k == 0 { assert(state.at(begin + k) == ds[0]); }
                }
            }
            return ArgError { index: begin + 1, expected: B::wanted_type(), actual: state.type_of(begin + 1) };
        }
        proof { assert(ds[2] == state.at(begin + 2)); }
        if <C as FromLua>::from_lua(state, begin + 2).is_none() {
            proof {
                assert(Self::wanted_nth(2) == C::wanted());
                assert forall|k: int| 0 <= k < 2 implies Self::accepts_nth(#[trigger] state.at(begin + k), k) by {
                    if k == 0 { assert(state.at(begin + k) == ds[0]); } else if k == 1 { assert(state.at(begin + k) == ds[1]); }
                }
            }
            return ArgError { index: begin + 2, expected: C::wanted_type(), actual: state.type_of(begin + 2) };
        }
        proof { assert(ds[3] == state.at(begin + 3)); }
        if <D as FromLua>::from_lua(state, begin + 3).is_none() {
            proof {
                assert(Self::wanted_nth(3) == D::wanted());
                assert forall|k: int| 0 <= k < 3 implies Self::accepts_nth(#[trigger] state.at(begin + k), k) by {
                    if k == 0 { assert(state.at(begin + k) == ds[0]); } else if k == 1 { assert(state.at(begin + k) == ds[1]); } else if k == 2 { assert(state.at(begin + k) == ds[2]); }
                }
            }
            return ArgError { index: begin + 3, expected: D::wanted_type(), actual: state.type_of(begin + 3) };
        }
        proof { assert(ds[4] == state.at(begin + 4)); }
        if <E as FromLua>::from_lua(state, begin + 4).is_none() {
            proof {
                assert(Self::wanted_nth(4) == E::wanted());
                assert forall|k: int| 0 <= k < 4 implies Self::accepts_nth(#[trigger] state.at(begin + k), k) by {
                    if k == 0 { assert(state.at(begin + k) == ds[0]); } else if k == 1 { assert(state.at(begin + k) == ds[1]); } else if k == 2 { assert(state.at(begin + k) == ds[2]); } else if k == 3 { assert(state.at(begin + k) == ds[3]); }
                }
            }
            return ArgError { index: begin + 4, expected: E::wanted_type(), actual: state.type_of(begin + 4) };
        }
        proof { assert(ds[5] == state.at(begin + 5)); }
        {
            proof {
                assert(Self::wanted_nth(5) == F::wanted());
                assert forall|k: int| 0 <= k < 5 implies Self::accepts_nth(#[trigger] state.at(begin + k), k) by {
                    if k == 0 { assert(state.at(begin + k) == ds[0]); } else if k == 1 { assert(state.at(begin + k) == ds[1]); } else if k == 2 { assert(state.at(begin + k) == ds[2]); } else if k == 3 { assert(state.at(begin + k) == ds[3]); } else if k == 4 { assert(state.at(begin + k) == ds[4]); }
                }
            }
            ArgError { index: begin + 5, expected: F::wanted_type(), actual: state.type_of(begin + 5) }
        }
    }
}

impl<A: ToLua, B: ToLua, C: ToLua, D: ToLua, E: ToLua, F: ToLua, G: ToLua> ToLuaMulti for (A, B, C, D, E, F, G, ) {
    const COUNT: usize = 7;

    open spec fn lua_datums(&self) -> Seq<Datum> {
        seq![self.0.lua_datum(), self.1.lua_datum(), self.2.lua_datum(), self.3.lua_datum(), self.4.lua_datum(), self.5.lua_datum(), self.6.lua_datum()]
    }

    proof fn lemma_count(&self) {
    }

    fn to_lua<H>(self, state: &mut State<H>) {
        let ghost ds = self.lua_datums();
        let (a, b, c, d, e, f, g, ) = self;
        proof { old(state).lemma_same_heap_refl(); }
        let ghost before_a = *state;
        ToLua::to_lua(a, state);
        proof { State::lemma_same_heap_trans(&*state, &before_a, &*old(state)); }
        let ghost before_b = *state;
        ToLua::to_lua(b, state);
        proof { State::lemma_same_heap_trans(&*state, &before_b, &*old(state)); }
        let ghost before_c = *state;
        ToLua::to_lua(c, state);
        proof { State::lemma_same_heap_trans(&*state, &before_c, &*old(state)); }
        let ghost before_d = *state;
        ToLua::to_lua(d, state);
        proof { State::lemma_same_heap_trans(&*state, &before_d, &*old(state)); }
        let ghost before_e = *state;
        ToLua::to_lua(e, state);
        proof { State::lemma_same_heap_trans(&*state, &before_e, &*old(state)); }
        let ghost before_f = *state;
        ToLua::to_lua(f, state);
        proof { State::lemma_same_heap_trans(&*state, &before_f, &*old(state)); }
        let ghost before_g = *state;
        ToLua::to_lua(g, state);
        proof { State::lemma_same_heap_trans(&*state, &before_g, &*old(state)); }
        proof { assert(state.view() =~= old(state).view() + ds); }
    }
}

impl<A: FromLua, B: FromLua, C: FromLua, D: FromLua, E: FromLua, F: FromLua, G: FromLua> FromLuaMulti for (A, B, C, D, E, F, G, ) {
    const COUNT: usize = 7;

    open spec fn accepts_all(ds: Seq<Datum>) -> bool {
        A::accepts(ds[0]) && B::accepts(ds[1]) && C::accepts(ds[2]) && D::accepts(ds[3]) && E::accepts(ds[4]) && F::accepts(ds[5]) && G::accepts(ds[6])
    }

    open spec fn converts_all(ds: Seq<Datum>, x: (A, B, C, D, E, F, G, )) -> bool {
        A::converts(ds[0], x.0) && B::converts(ds[1], x.1) && C::converts(ds[2], x.2) && D::converts(ds[3], x.3) && E::converts(ds[4], x.4) && F::converts(ds[5], x.5) && G::converts(ds[6], x.6)
    }

    open spec fn arity() -> nat {
        7
    }

    proof fn lemma_arity() {
    }

    open spec fn accepts_nth(d: Datum, i: int) -> bool {
        (i != 0 || A::accepts(d)) && (i != 1 || B::accepts(d)) && (i != 2 || C::accepts(d)) && (i != 3 || D::accepts(d)) && (i != 4 || E::accepts(d)) && (i != 5 || F::accepts(d)) && (i != 6 || G::accepts(d))
    }

    open spec fn wanted_nth(i: int) -> Type {
        if i == 0 { A::wanted() } else if i == 1 { B::wanted() } else if i == 2 { C::wanted() } else if i == 3 { D::wanted() } else if i == 4 { E::wanted() } else if i == 5 { F::wanted() } else if i == 6 { G::wanted() } else { Type::NoValue }
    }

    fn from_lua<H>(state: &State<H>, begin: Index) -> (r: Option<(A, B, C, D, E, F, G, )>) {
        let a = match <A as FromLua>::from_lua(state, begin + 0) {
            Some(v) => v,
            None => { return None; },
        };
        let b = match <B as FromLua>::from_lua(state, begin + 1) {
            Some(v) => v,
            None => { return None; },
        };
        let c = match <C as FromLua>::from_lua(state, begin + 2) {
            Some(v) => v,
            None => { return None; },
        };
        let d = match <D as FromLua>::from_lua(state, begin + 3) {
            Some(v) => v,
            None => { return None; },
        };
        let e = match <E as FromLua>::from_lua(state, begin + 4) {
            Some(v) => v,
            None => { return None; },
        };
        let f = match <F as FromLua>::from_lua(state, begin + 5) {
            Some(v) => v,
            None => { return None; },
        };
        let g = match <G as FromLua>::from_lua(state, begin + 6) {
            Some(v) => v,
            None => { return None; },
        };
        Some((a, b, c, d, e, f, g, ))
    }

    fn reject<H>(state: &State<H>, begin: Index) -> (e: ArgError) {
        let ghost ds = state.run(begin as int, 7);
        proof { assert(ds[0] == state.at(begin + 0)); }
        if <A as FromLua>::from_lua(state, begin + 0).is_none() {
            proof {
                assert(Self::wanted_nth(0) == A::wanted());
                assert forall|k: int| 0 <= k < 0 implies Self::accepts_nth(#[trigger] state.at(begin + k), k) by {
                    
                }
            }
            return ArgError { index: begin + 0, expected: A::wanted_type(), actual: state.type_of(begin + 0) };
        }
        proof { assert(ds[1] == state.at(begin + 1)); }
        if <B as FromLua>::from_lua(state, begin + 1).is_none() {
            proof {
                assert(Self::wanted_nth(1) == B::wanted());
                assert forall|k: int| 0 <= k < 1 implies Self::accepts_nth(#[trigger] state.at(begin + k), k) by {
                    if k == 0 { assert(state.at(begin + k) == ds[0]); }
                }
            }
            return ArgError { index: begin + 1, expected: B::wanted_type(), actual: state.type_of(begin + 1) };
        }
        proof { assert(ds[2] == state.at(begin + 2)); }
        if <C as FromLua>::from_lua(state, begin + 2).is_none() {
            proof {
                assert(Self::wanted_nth(2) == C::wanted());
                assert forall|k: int| 0 <= k < 2 implies Self::accepts_nth(#[trigger] state.at(begin + k), k) by {
                    if k == 0 { assert(state.at(begin + k) == ds[0]); } else if k == 1 { assert(state.at(begin + k) == ds[1]); }
                }
            }
            return ArgError { index: begin + 2, expected: C::wanted_type(), actual: state.type_of(begin + 2) };
        }
        proof { assert(ds[3] == state.at(begin + 3)); }
        if <D as FromLua>::from_lua(state, begin + 3).is_none() {
            proof {
                assert(Self::wanted_nth(3) == D::wanted());
                assert forall|k: int| 0 <= k < 3 implies Self::accepts_nth(#[trigger] state.at(begin + k), k) by {
                    if k == 0 { assert(state.at(begin + k) == ds[0]); } else if k == 1 { assert(state.at(begin + k) == ds[1]); } else if k == 2 { assert(state.at(begin + k) == ds[2]); }
                }
            }
            return ArgError { index: begin + 3, expected: D::wanted_type(), actual: state.type_of(begin + 3) };
        }
        proof { assert(ds[4] == state.at(begin + 4)); }
        if <E as FromLua>::from_lua(state, begin + 4).is_none() {
            proof {
                assert(Self::wanted_nth(4) == E::wanted());
                assert forall|k: int| 0 <= k < 4 implies Self::accepts_nth(#[trigger] state.at(begin + k), k) by {
                    if k == 0 { assert(state.at(begin + k) == ds[0]); } else if k == 1 { assert(state.at(begin + k) == ds[1]); } else if k == 2 { assert(state.at(begin + k) == ds[2]); } else if k == 3 { assert(state.at(begin + k) == ds[3]); }
                }
            }
            return ArgError { index: begin + 4, expected: E::wanted_type(), actual: state.type_of(begin + 4) };
        }
        proof { assert(ds[5] == state.at(begin + 5)); }
        if <F as FromLua>::from_lua(state, begin + 5).is_none() {
            proof {
                assert(Self::wanted_nth(5) == F::wanted());
                assert forall|k: int| 0 <= k < 5 implies Self::accepts_nth(#[trigger] state.at(begin + k), k) by {
                    if k == 0 { assert(state.at(begin + k) == ds[0]); } else if k == 1 { assert(state.at(begin + k) == ds[1]); } else if k == 2 { assert(state.at(begin + k) == ds[2]); } else if k == 3 { assert(state.at(begin + k) == ds[3]); } else if k == 4 { assert(state.at(begin + k) == ds[4]); }
                }
            }
            return ArgError { index: begin + 5, expected: F::wanted_type(), actual: state.type_of(begin + 5) };
        }
        proof { assert(ds[6] == state.at(begin + 6)); }
        {
            proof {
                assert(Self::wanted_nth(6) == G::wanted());
                assert forall|k: int| 0 <= k < 6 implies Self::accepts_nth(#[trigger] state.at(begin + k), k) by {
                    if k == 0 { assert(state.at(begin + k) == ds[0]); } else if k == 1 { assert(state.at(begin + k) == ds[1]); } else if k == 2 { assert(state.at(begin + k) == ds[2]); } else if k == 3 { assert(state.at(begin + k) == ds[3]); } else if k == 4 { assert(state.at(begin + k) == ds[4]); } else if k == 5 { assert(state.at(begin + k) == ds[5]); }
                }
            }
            ArgError { index: begin + 6, expected: G::wanted_type(), actual: state.type_of(begin + 6) }
        }
    }
}

impl<A: ToLua, B: ToLua, C: ToLua, D: ToLua, E: ToLua, F: ToLua, G: ToLua, J: ToLua> ToLuaMulti for (A, B, C, D, E, F, G, J, ) {
    const COUNT: usize = 8;

    open spec fn lua_datums(&self) -> Seq<Datum> {
        seq![self.0.lua_datum(), self.1.lua_datum(), self.2.lua_datum(), self.3.lua_datum(), self.4.lua_datum(), self.5.lua_datum(), self.6.lua_datum(), self.7.lua_datum()]
    }

    proof fn lemma_count(&self) {
    }

    fn to_lua<H>(self, state: &mut State<H>) {
        let ghost ds = self.lua_datums();
        let (a, b, c, d, e, f, g, j, ) = self;
        proof { old(state).lemma_same_heap_refl(); }
        let ghost before_a = *state;
        ToLua::to_lua(a, state);
        proof { State::lemma_same_heap_trans(&*state, &before_a, &*old(state)); }
        let ghost before_b = *state;
        ToLua::to_lua(b, state);
        proof { State::lemma_same_heap_trans(&*state, &before_b, &*old(state)); }
        let ghost before_c = *state;
        ToLua::to_lua(c, state);
        proof { State::lemma_same_heap_trans(&*state, &before_c, &*old(state)); }
        let ghost before_d = *state;
        ToLua::to_lua(d, state);
        proof { State::lemma_same_heap_trans(&*state, &before_d, &*old(state)); }
        let ghost before_e = *state;
        ToLua::to_lua(e, state);
        proof { State::lemma_same_heap_trans(&*state, &before_e, &*old(state)); }
        let ghost before_f = *state;
        ToLua::to_lua(f, state);
        proof { State::lemma_same_heap_trans(&*state, &before_f, &*old(state)); }
        let ghost before_g = *state;
        ToLua::to_lua(g, state);
        proof { State::lemma_same_heap_trans(&*state, &before_g, &*old(state)); }
        let ghost before_j = *state;
        ToLua::to_lua(j, state);
        proof { State::lemma_same_heap_trans(&*state, &before_j, &*old(state)); }
        proof { assert(state.view() =~= old(state).view() + ds); }
    }
}

impl<A: FromLua, B: FromLua, C: FromLua, D: FromLua, E: FromLua, F: FromLua, G: FromLua, J: FromLua> FromLuaMulti for (A, B, C, D, E, F, G, J, ) {
    const COUNT: usize = 8;

    open spec fn accepts_all(ds: Seq<Datum>) -> bool {
        A::accepts(ds[0]) && B::accepts(ds[1]) && C::accepts(ds[2]) && D::accepts(ds[3]) && E::accepts(ds[4]) && F::accepts(ds[5]) && G::accepts(ds[6]) && J::accepts(ds[7])
    }

    open spec fn converts_all(ds: Seq<Datum>, x: (A, B, C, D, E, F, G, J, )) -> bool {
        A::converts(ds[0], x.0) && B::converts(ds[1], x.1) && C::converts(ds[2], x.2) && D::converts(ds[3], x.3) && E::converts(ds[4], x.4) && F::converts(ds[5], x.5) && G::converts(ds[6], x.6) && J::converts(ds[7], x.7)
    }

    open spec fn arity() -> nat {
        8
    }

    proof fn lemma_arity() {
    }

    open spec fn accepts_nth(d: Datum, i: int) -> bool {
        (i != 0 || A::accepts(d)) && (i != 1 || B::accepts(d)) && (i != 2 || C::accepts(d)) && (i != 3 || D::accepts(d)) && (i != 4 || E::accepts(d)) && (i != 5 || F::accepts(d)) && (i != 6 || G::accepts(d)) && (i != 7 || J::accepts(d))
    }

    open spec fn wanted_nth(i: int) -> Type {
        if i == 0 { A::wanted() } else if i == 1 { B::wanted() } else if i == 2 { C::wanted() } else if i == 3 { D::wanted() } else if i == 4 { E::wanted() } else if i == 5 { F::wanted() } else if i == 6 { G::wanted() } else if i == 7 { J::wanted() } else { Type::NoValue }
    }

    fn from_lua<H>(state: &State<H>, begin: Index) -> (r: Option<(A, B, C, D, E, F, G, J, )>) {
        let a = match <A as FromLua>::from_lua(state, begin + 0) {
            Some(v) => v,
            None => { return None; },
        };
        let b = match <B as FromLua>::from_lua(state, begin + 1) {
            Some(v) => v,
            None => { return None; },
        };
        let c = match <C as FromLua>::from_lua(state, begin + 2) {
            Some(v) => v,
            None => { return None; },
        };
        let d = match <D as FromLua>::from_lua(state, begin + 3) {
            Some(v) => v,
            None => { return None; },
        };
        let e = match <E as FromLua>::from_lua(state, begin + 4) {
            Some(v) => v,
            None => { return None; },
        };
        let f = match <F as FromLua>::from_lua(state, begin + 5) {
            Some(v) => v,
            None => { return None; },
        };
        let g = match <G as FromLua>::from_lua(state, begin + 6) {
            Some(v) => v,
            None => { return None; },
        };
        let j = match <J as FromLua>::from_lua(state, begin + 7) {
            Some(v) => v,
            None => { return None; },
        };
        Some((a, b, c, d, e, f, g, j, ))
    }

    fn reject<H>(state: &State<H>, begin: Index) -> (e: ArgError) {
        let ghost ds = state.run(begin as int, 8);
        proof { assert(ds[0] == state.at(begin + 0)); }
        if <A as FromLua>::from_lua(state, begin + 0).is_none() {
            proof {
                assert(Self::wanted_nth(0) == A::wanted());
                assert forall|k: int| 0 <= k < 0 implies Self::accepts_nth(#[trigger] state.at(begin + k), k) by {
                    
                }
            }
            return ArgError { index: begin + 0, expected: A::wanted_type(), actual: state.type_of(begin + 0) };
        }
        proof { assert(ds[1] == state.at(begin + 1)); }
        if <B as FromLua>::from_lua(state, begin + 1).is_none() {
            proof {
                assert(Self::wanted_nth(1) == B::wanted());
                assert forall|k: int| 0 <= k < 1 implies Self::accepts_nth(#[trigger] state.at(begin + k), k) by {
                    if k == 0 { assert(state.at(begin + k) == ds[0]); }
                }
            }
            return ArgError { index: begin + 1, expected: B::wanted_type(), actual: state.type_of(begin + 1) };
        }
        proof { assert(ds[2] == state.at(begin + 2)); }
        if <C as FromLua>::from_lua(state, begin + 2).is_none() {
            proof {
                assert(Self::wanted_nth(2) == C::wanted());
                assert forall|k: int| 0 <= k < 2 implies Self::accepts_nth(#[trigger] state.at(begin + k), k) by {
                    if k == 0 { assert(state.at(begin + k) == ds[0]); } else if k == 1 { assert(state.at(begin + k) == ds[1]); }
                }
            }
            return ArgError { index: begin + 2, expected: C::wanted_type(), actual: state.type_of(begin + 2) };
        }
        proof { assert(ds[3] == state.at(begin + 3)); }
        if <D as FromLua>::from_lua(state, begin + 3).is_none() {
            proof {
                assert(Self::wanted_nth(3) == D::wanted());
                assert forall|k: int| 0 <= k < 3 implies Self::accepts_nth(#[trigger] state.at(begin + k), k) by {
                    if k == 0 { assert(state.at(begin + k) == ds[0]); } else if k == 1 { assert(state.at(begin + k) == ds[1]); } else if k == 2 { assert(state.at(begin + k) == ds[2]); }
                }
            }
            return ArgError { index: begin + 3, expected: D::wanted_type(), actual: state.type_of(begin + 3) };
        }
        proof { assert(ds[4] == state.at(begin + 4)); }
        if <E as FromLua>::from_lua(state, begin + 4).is_none() {
            proof {
                assert(Self::wanted_nth(4) == E::wanted());
                assert forall|k: int| 0 <= k < 4 implies Self::accepts_nth(#[trigger] state.at(begin + k), k) by {
                    if k == 0 { assert(state.at(begin + k) == ds[0]); } else if k == 1 { assert(state.at(begin + k) == ds[1]); } else if k == 2 { assert(state.at(begin + k) == ds[2]); } else if k == 3 { assert(state.at(begin + k) == ds[3]); }
                }
            }
            return ArgError { index: begin + 4, expected: E::wanted_type(), actual: state.type_of(begin + 4) };
        }
        proof { assert(ds[5] == state.at(begin + 5)); }
        if <F as FromLua>::from_lua(state, begin + 5).is_none() {
            proof {
                assert(Self::wanted_nth(5) == F::wanted());
                assert forall|k: int| 0 <= k < 5 implies Self::accepts_nth(#[trigger] state.at(begin + k), k) by {
                    if k == 0 { assert(state.at(begin + k) == ds[0]); } else if k == 1 { assert(state.at(begin + k) == ds[1]); } else if k == 2 { assert(state.at(begin + k) == ds[2]); } else if k == 3 { assert(state.at(begin + k) == ds[3]); } else if k == 4 { assert(state.at(begin + k) == ds[4]); }
                }
            }
            return ArgError { index: begin + 5, expected: F::wanted_type(), actual: state.type_of(begin + 5) };
        }
        proof { assert(ds[6] == state.at(begin + 6)); }
        if <G as FromLua>::from_lua(state, begin + 6).is_none() {
            proof {
                assert(Self::wanted_nth(6) == G::wanted());
                assert forall|k: int| 0 <= k < 6 implies Self::accepts_nth(#[trigger] state.at(begin + k), k) by {
                    if k == 0 { assert(state.at(begin + k) == ds[0]); } else if k == 1 { assert(state.at(begin + k) == ds[1]); } else if k == 2 { assert(state.at(begin + k) == ds[2]); } else if k == 3 { assert(state.at(begin + k) == ds[3]); } else if k == 4 { assert(state.at(begin + k) == ds[4]); } else if k == 5 { assert(state.at(begin + k) == ds[5]); }
                }
            }
            return ArgError { index: begin + 6, expected: G::wanted_type(), actual: state.type_of(begin + 6) };
        }
        proof { assert(ds[7] == state.at(begin + 7)); }
        {
            proof {
                assert(Self::wanted_nth(7) == J::wanted());
                assert forall|k: int| 0 <= k < 7 implies Self::accepts_nth(#[trigger] state.at(begin + k), k) by {
                    if k == 0 { assert(state.at(begin + k) == ds[0]); } else if k == 1 { assert(state.at(begin + k) == ds[1]); } else if k == 2 { assert(state.at(begin + k) == ds[2]); } else if k == 3 { assert(state.at(begin + k) == ds[3]); } else if k == 4 { assert(state.at(begin + k) == ds[4]); } else if k == 5 { assert(state.at(begin + k) == ds[5]); } else if k == 6 { assert(state.at(begin + k) == ds[6]); }
                }
            }
            ArgError { index: begin + 7, expected: J::wanted_type(), actual: state.type_of(begin + 7) }
        }
    }
}

impl<A: ToLua, B: ToLua, C: ToLua, D: ToLua, E: ToLua, F: ToLua, G: ToLua, J: ToLua, K: ToLua> ToLuaMulti for (A, B, C, D, E, F, G, J, K, ) {
    const COUNT: usize = 9;

    open spec fn lua_datums(&self) -> Seq<Datum> {
        seq![self.0.lua_datum(), self.1.lua_datum(), self.2.lua_datum(), self.3.lua_datum(), self.4.lua_datum(), self.5.lua_datum(), self.6.lua_datum(), self.7.lua_datum(), self.8.lua_datum()]
    }

    proof fn lemma_count(&self) {
    }

    fn to_lua<H>(self, state: &mut State<H>) {
        let ghost ds = self.lua_datums();
        let (a, b, c, d, e, f, g, j, k, ) = self;
        proof { old(state).lemma_same_heap_refl(); }
        let ghost before_a = *state;
        ToLua::to_lua(a, state);
        proof { State::lemma_same_heap_trans(&*state, &before_a, &*old(state)); }
        let ghost before_b = *state;
        ToLua::to_lua(b, state);
        proof { State::lemma_same_heap_trans(&*state, &before_b, &*old(state)); }
        let ghost before_c = *state;
        ToLua::to_lua(c, state);
        proof { State::lemma_same_heap_trans(&*state, &before_c, &*old(state)); }
        let ghost before_d = *state;
        ToLua::to_lua(d, state);
        proof { State::lemma_same_heap_trans(&*state, &before_d, &*old(state)); }
        let ghost before_e = *state;
        ToLua::to_lua(e, state);
        proof { State::lemma_same_heap_trans(&*state, &before_e, &*old(state)); }
        let ghost before_f = *state;
        ToLua::to_lua(f, state);
        proof { State::lemma_same_heap_trans(&*state, &before_f, &*old(state)); }
        let ghost before_g = *state;
        ToLua::to_lua(g, state);
        proof { State::lemma_same_heap_trans(&*state, &before_g, &*old(state)); }
        let ghost before_j = *state;
        ToLua::to_lua(j, state);
        proof { State::lemma_same_heap_trans(&*state, &before_j, &*old(state)); }
        let ghost before_k = *state;
        ToLua::to_lua(k, state);
        proof { State::lemma_same_heap_trans(&*state, &before_k, &*old(state)); }
        proof { assert(state.view() =~= old(state).view() + ds); }
    }
}

impl<A: FromLua, B: FromLua, C: FromLua, D: FromLua, E: FromLua, F: FromLua, G: FromLua, J: FromLua, K: FromLua> FromLuaMulti for (A, B, C, D, E, F, G, J, K, ) {
    const COUNT: usize = 9;

    open spec fn accepts_all(ds: Seq<Datum>) -> bool {
        A::accepts(ds[0]) && B::accepts(ds[1]) && C::accepts(ds[2]) && D::accepts(ds[3]) && E::accepts(ds[4]) && F::accepts(ds[5]) && G::accepts(ds[6]) && J::accepts(ds[7]) && K::accepts(ds[8])
    }

    open spec fn converts_all(ds: Seq<Datum>, x: (A, B, C, D, E, F, G, J, K, )) -> bool {
        A::converts(ds[0], x.0) && B::converts(ds[1], x.1) && C::converts(ds[2], x.2) && D::converts(ds[3], x.3) && E::converts(ds[4], x.4) && F::converts(ds[5], x.5) && G::converts(ds[6], x.6) && J::converts(ds[7], x.7) && K::converts(ds[8], x.8)
    }

    open spec fn arity() -> nat {
        9
    }

    proof fn lemma_arity() {
    }

    open spec fn accepts_nth(d: Datum, i: int) -> bool {
        (i != 0 || A::accepts(d)) && (i != 1 || B::accepts(d)) && (i != 2 || C::accepts(d)) && (i != 3 || D::accepts(d)) && (i != 4 || E::accepts(d)) && (i != 5 || F::accepts(d)) && (i != 6 || G::accepts(d)) && (i != 7 || J::accepts(d)) && (i != 8 || K::accepts(d))
    }

    open spec fn wanted_nth(i: int) -> Type {
        if i == 0 { A::wanted() } else if i == 1 { B::wanted() } else if i == 2 { C::wanted() } else if i == 3 { D::wanted() } else if i == 4 { E::wanted() } else if i == 5 { F::wanted() } else if i == 6 { G::wanted() } else if i == 7 { J::wanted() } else if i == 8 { K::wanted() } else { Type::NoValue }
    }

    fn from_lua<H>(state: &State<H>, begin: Index) -> (r: Option<(A, B, C, D, E, F, G, J, K, )>) {
        let a = match <A as FromLua>::from_lua(state, begin + 0) {
            Some(v) => v,
            None => { return None; },
        };
        let b = match <B as FromLua>::from_lua(state, begin + 1) {
            Some(v) => v,
            None => { return None; },
        };
        let c = match <C as FromLua>::from_lua(state, begin + 2) {
            Some(v) => v,
            None => { return None; },
        };
        let d = match <D as FromLua>::from_lua(state, begin + 3) {
            Some(v) => v,
            None => { return None; },
        };
        let e = match <E as FromLua>::from_lua(state, begin + 4) {
            Some(v) => v,
            None => { return None; },
        };
        let f = match <F as FromLua>::from_lua(state, begin + 5) {
            Some(v) => v,
            None => { return None; },
        };
        let g = match <G as FromLua>::from_lua(state, begin + 6) {
            Some(v) => v,
            None => { return None; },
        };
        let j = match <J as FromLua>::from_lua(state, begin + 7) {
            Some(v) => v,
            None => { return None; },
        };
        let k = match <K as FromLua>::from_lua(state, begin + 8) {
            Some(v) => v,
            None => { return None; },
        };
        Some((a, b, c, d, e, f, g, j, k, ))
    }

    fn reject<H>(state: &State<H>, begin: Index) -> (e: ArgError) {
        let ghost ds = state.run(begin as int, 9);
        proof { assert(ds[0] == state.at(begin + 0)); }
        if <A as FromLua>::from_lua(state, begin + 0).is_none() {
            proof {
                assert(Self::wanted_nth(0) == A::wanted());
                assert forall|k: int| 0 <= k < 0 implies Self::accepts_nth(#[trigger] state.at(begin + k), k) by {
                    
                }
            }
            return ArgError { index: begin + 0, expected: A::wanted_type(), actual: state.type_of(begin + 0) };
        }
        proof { assert(ds[1] == state.at(begin + 1)); }
        if <B as FromLua>::from_lua(state, begin + 1).is_none() {
            proof {
                assert(Self::wanted_nth(1) == B::wanted());
                assert forall|k: int| 0 <= k < 1 implies Self::accepts_nth(#[trigger] state.at(begin + k), k) by {
                    if k == 0 { assert(state.at(begin + k) == ds[0]); }
                }
            }
            return ArgError { index: begin + 1, expected: B::wanted_type(), actual: state.type_of(begin + 1) };
        }
        proof { assert(ds[2] == state.at(begin + 2)); }
        if <C as FromLua>::from_lua(state, begin + 2).is_none() {
            proof {
                assert(Self::wanted_nth(2) == C::wanted());
                assert forall|k: int| 0 <= k < 2 implies Self::accepts_nth(#[trigger] state.at(begin + k), k) by {
                    if k == 0 { assert(state.at(begin + k) == ds[0]); } else if k == 1 { assert(state.at(begin + k) == ds[1]); }
                }
            }
            return ArgError { index: begin + 2, expected: C::wanted_type(), actual: state.type_of(begin + 2) };
        }
        proof { assert(ds[3] == state.at(begin + 3)); }
        if <D as FromLua>::from_lua(state, begin + 3).is_none() {
            proof {
                assert(Self::wanted_nth(3) == D::wanted());
                assert forall|k: int| 0 <= k < 3 implies Self::accepts_nth(#[trigger] state.at(begin + k), k) by {
                    if k == 0 { assert(state.at(begin + k) == ds[0]); } else if k == 1 { assert(state.at(begin + k) == ds[1]); } else if k == 2 { assert(state.at(begin + k) == ds[2]); }
                }
            }
            return ArgError { index: begin + 3, expected: D::wanted_type(), actual: state.type_of(begin + 3) };
        }
        proof { assert(ds[4] == state.at(begin + 4)); }
        if <E as FromLua>::from_lua(state, begin + 4).is_none() {
            proof {
                assert(Self::wanted_nth(4) == E::wanted());
                assert forall|k: int| 0 <= k < 4 implies Self::accepts_nth(#[trigger] state.at(begin + k), k) by {
                    if k == 0 { assert(state.at(begin + k) == ds[0]); } else if k == 1 { assert(state.at(begin + k) == ds[1]); } else if k == 2 { assert(state.at(begin + k) == ds[2]); } else if k == 3 { assert(state.at(begin + k) == ds[3]); }
                }
            }
            return ArgError { index: begin + 4, expected: E::wanted_type(), actual: state.type_of(begin + 4) };
        }
        proof { assert(ds[5] == state.at(begin + 5)); }
        if <F as FromLua>::from_lua(state, begin + 5).is_none() {
            proof {
                assert(Self::wanted_nth(5) == F::wanted());
                assert forall|k: int| 0 <= k < 5 implies Self::accepts_nth(#[trigger] state.at(begin + k), k) by {
                    if k == 0 { assert(state.at(begin + k) == ds[0]); } else if k == 1 { assert(state.at(begin + k) == ds[1]); } else if k == 2 { assert(state.at(begin + k) == ds[2]); } else if k == 3 { assert(state.at(begin + k) == ds[3]); } else if k == 4 { assert(state.at(begin + k) == ds[4]); }
                }
            }
            return ArgError { index: begin + 5, expected: F::wanted_type(), actual: state.type_of(begin + 5) };
        }
        proof { assert(ds[6] == state.at(begin + 6)); }
        if <G as FromLua>::from_lua(state, begin + 6).is_none() {
            proof {
                assert(Self::wanted_nth(6) == G::wanted());
                assert forall|k: int| 0 <= k < 6 implies Self::accepts_nth(#[trigger] state.at(begin + k), k) by {
                    if k == 0 { assert(state.at(begin + k) == ds[0]); } else if k == 1 { assert(state.at(begin + k) == ds[1]); } else if k == 2 { assert(state.at(begin + k) == ds[2]); } else if k == 3 { assert(state.at(begin + k) == ds[3]); } else if k == 4 { assert(state.at(begin + k) == ds[4]); } else if k == 5 { assert(state.at(begin + k) == ds[5]); }
                }
            }
            return ArgError { index: begin + 6, expected: G::wanted_type(), actual: state.type_of(begin + 6) };
        }
        proof { assert(ds[7] == state.at(begin + 7)); }
        if <J as FromLua>::from_lua(state, begin + 7).is_none() {
            proof {
                assert(Self::wanted_nth(7) == J::wanted());
                assert forall|k: int| 0 <= k < 7 implies Self::accepts_nth(#[trigger] state.at(begin + k), k) by {
                    if k == 0 { assert(state.at(begin + k) == ds[0]); } else if k == 1 { assert(state.at(begin + k) == ds[1]); } else if k == 2 { assert(state.at(begin + k) == ds[2]); } else if k == 3 { assert(state.at(begin + k) == ds[3]); } else if k == 4 { assert(state.at(begin + k) == ds[4]); } else if k == 5 { assert(state.at(begin + k) == ds[5]); } else if k == 6 { assert(state.at(begin + k) == ds[6]); }
                }
            }
            return ArgError { index: begin + 7, expected: J::wanted_type(), actual: state.type_of(begin + 7) };
        }
        proof { assert(ds[8] == state.at(begin + 8)); }
        {
            proof {
                assert(Self::wanted_nth(8) == K::wanted());
                assert forall|k: int| 0 <= k < 8 implies Self::accepts_nth(#[trigger] state.at(begin + k), k) by {
                    if k == 0 { assert(state.at(begin + k) == ds[0]); } else if k == 1 { assert(state.at(begin + k) == ds[1]); } else if k == 2 { assert(state.at(begin + k) == ds[2]); } else if k == 3 { assert(state.at(begin + k) == ds[3]); } else if k == 4 { assert(state.at(begin + k) == ds[4]); } else if k == 5 { assert(state.at(begin + k) == ds[5]); } else if k == 6 { assert(state.at(begin + k) == ds[6]); } else if k == 7 { assert(state.at(begin + k) == ds[7]); }
                }
            }
            ArgError { index: begin + 8, expected: K::wanted_type(), actual: state.type_of(begin + 8) }
        }
    }
}

/// A native function's argument: a mandatory one fails with an argument
/// error on a slot that does not convert, an optional one (`Option<T>`)
/// gives `None` there instead.
pub trait FromIndex: Sized {
    /// Whether the argument `d` is taken.
    spec fn takes(d: Datum) -> bool;

    /// Whether `x` is what argument `d` gives.
    spec fn gives(d: Datum, x: Self) -> bool;

    /// The type named in the error for an argument that is not taken.
    spec fn wanted() -> Type;

    /// The argument at `index`, or the error that names it.
    fn from_lua<H>(state: &State<H>, index: Index) -> (r: Result<Self, ArgError>)
        requires
            state.wf(),
        ensures
            r is Ok == Self::takes(state.at(index as int)),
            r matches Ok(x) ==> Self::gives(state.at(index as int), x),
            r matches Err(e) ==> e == (ArgError { index, expected: Self::wanted(), actual: type_of_datum(state.at(index as int)) }),
    ;
}

impl FromIndex for i8 {
    open spec fn takes(d: Datum) -> bool {
        <i8 as FromLua>::accepts(d)
    }

    open spec fn gives(d: Datum, x: i8) -> bool {
        <i8 as FromLua>::converts(d, x)
    }

    open spec fn wanted() -> Type {
        Type::Number
    }

    fn from_lua<H>(state: &State<H>, index: Index) -> (r: Result<i8, ArgError>) {
        match <i8 as FromLua>::from_lua(state, index) {
            Some(x) => Ok(x),
            None => Err(ArgError { index, expected: Type::Number, actual: state.type_of(index) }),
        }
    }
}

impl FromIndex for u8 {
    open spec fn takes(d: Datum) -> bool {
        <u8 as FromLua>::accepts(d)
    }

    open spec fn gives(d: Datum, x: u8) -> bool {
        <u8 as FromLua>::converts(d, x)
    }

    open spec fn wanted() -> Type {
        Type::Number
    }

    fn from_lua<H>(state: &State<H>, index: Index) -> (r: Result<u8, ArgError>) {
        match <u8 as FromLua>::from_lua(state, index) {
            Some(x) => Ok(x),
            None => Err(ArgError { index, expected: Type::Number, actual: state.type_of(index) }),
        }
    }
}

impl FromIndex for i16 {
    open spec fn takes(d: Datum) -> bool {
        <i16 as FromLua>::accepts(d)
    }

    open spec fn gives(d: Datum, x: i16) -> bool {
        <i16 as FromLua>::converts(d, x)
    }

    open spec fn wanted() -> Type {
        Type::Number
    }

    fn from_lua<H>(state: &State<H>, index: Index) -> (r: Result<i16, ArgError>) {
        match <i16 as FromLua>::from_lua(state, index) {
            Some(x) => Ok(x),
            None => Err(ArgError { index, expected: Type::Number, actual: state.type_of(index) }),
        }
    }
}

impl FromIndex for u16 {
    open spec fn takes(d: Datum) -> bool {
        <u16 as FromLua>::accepts(d)
    }

    open spec fn gives(d: Datum, x: u16) -> bool {
        <u16 as FromLua>::converts(d, x)
    }

    open spec fn wanted() -> Type {
        Type::Number
    }

    fn from_lua<H>(state: &State<H>, index: Index) -> (r: Result<u16, ArgError>) {
        match <u16 as FromLua>::from_lua(state, index) {
            Some(x) => Ok(x),
            None => Err(ArgError { index, expected: Type::Number, actual: state.type_of(index) }),
        }
    }
}

impl FromIndex for i32 {
    open spec fn takes(d: Datum) -> bool {
        <i32 as FromLua>::accepts(d)
    }

    open spec fn gives(d: Datum, x: i32) -> bool {
        <i32 as FromLua>::converts(d, x)
    }

    open spec fn wanted() -> Type {
        Type::Number
    }

    fn from_lua<H>(state: &State<H>, index: Index) -> (r: Result<i32, ArgError>) {
        match <i32 as FromLua>::from_lua(state, index) {
            Some(x) => Ok(x),
            None => Err(ArgError { index, expected: Type::Number, actual: state.type_of(index) }),
        }
    }
}

impl FromIndex for u32 {
    open spec fn takes(d: Datum) -> bool {
        <u32 as FromLua>::accepts(d)
    }

    open spec fn gives(d: Datum, x: u32) -> bool {
        <u32 as FromLua>::converts(d, x)
    }

    open spec fn wanted() -> Type {
        Type::Number
    }

    fn from_lua<H>(state: &State<H>, index: Index) -> (r: Result<u32, ArgError>) {
        match <u32 as FromLua>::from_lua(state, index) {
            Some(x) => Ok(x),
            None => Err(ArgError { index, expected: Type::Number, actual: state.type_of(index) }),
        }
    }
}

impl FromIndex for i64 {
    open spec fn takes(d: Datum) -> bool {
        <i64 as FromLua>::accepts(d)
    }

    open spec fn gives(d: Datum, x: i64) -> bool {
        <i64 as FromLua>::converts(d, x)
    }

    open spec fn wanted() -> Type {
        Type::Number
    }

    fn from_lua<H>(state: &State<H>, index: Index) -> (r: Result<i64, ArgError>) {
        match <i64 as FromLua>::from_lua(state, index) {
            Some(x) => Ok(x),
            None => Err(ArgError { index, expected: Type::Number, actual: state.type_of(index) }),
        }
    }
}

impl FromIndex for u64 {
    open spec fn takes(d: Datum) -> bool {
        <u64 as FromLua>::accepts(d)
    }

    open spec fn gives(d: Datum, x: u64) -> bool {
        <u64 as FromLua>::converts(d, x)
    }

    open spec fn wanted() -> Type {
        Type::Number
    }

    fn from_lua<H>(state: &State<H>, index: Index) -> (r: Result<u64, ArgError>) {
        match <u64 as FromLua>::from_lua(state, index) {
            Some(x) => Ok(x),
            None => Err(ArgError { index, expected: Type::Number, actual: state.type_of(index) }),
        }
    }
}

impl FromIndex for isize {
    open spec fn takes(d: Datum) -> bool {
        <isize as FromLua>::accepts(d)
    }

    open spec fn gives(d: Datum, x: isize) -> bool {
        <isize as FromLua>::converts(d, x)
    }

    open spec fn wanted() -> Type {
        Type::Number
    }

    fn from_lua<H>(state: &State<H>, index: Index) -> (r: Result<isize, ArgError>) {
        match <isize as FromLua>::from_lua(state, index) {
            Some(x) => Ok(x),
            None => Err(ArgError { index, expected: Type::Number, actual: state.type_of(index) }),
        }
    }
}

impl FromIndex for usize {
    open spec fn takes(d: Datum) -> bool {
        <usize as FromLua>::accepts(d)
    }

    open spec fn gives(d: Datum, x: usize) -> bool {
        <usize as FromLua>::converts(d, x)
    }

    open spec fn wanted() -> Type {
        Type::Number
    }

    fn from_lua<H>(state: &State<H>, index: Index) -> (r: Result<usize, ArgError>) {
        match <usize as FromLua>::from_lua(state, index) {
            Some(x) => Ok(x),
            None => Err(ArgError { index, expected: Type::Number, actual: state.type_of(index) }),
        }
    }
}

impl FromIndex for NumberBits {
    open spec fn takes(d: Datum) -> bool {
        <NumberBits as FromLua>::accepts(d)
    }

    open spec fn gives(d: Datum, x: NumberBits) -> bool {
        <NumberBits as FromLua>::converts(d, x)
    }

    open spec fn wanted() -> Type {
        Type::Number
    }

    fn from_lua<H>(state: &State<H>, index: Index) -> (r: Result<NumberBits, ArgError>) {
        match <NumberBits as FromLua>::from_lua(state, index) {
            Some(x) => Ok(x),
            None => Err(ArgError { index, expected: Type::Number, actual: state.type_of(index) }),
        }
    }
}

impl FromIndex for String {
    open spec fn takes(d: Datum) -> bool {
        <String as FromLua>::accepts(d)
    }

    open spec fn gives(d: Datum, x: String) -> bool {
        <String as FromLua>::converts(d, x)
    }

    open spec fn wanted() -> Type {
        Type::String
    }

    fn from_lua<H>(state: &State<H>, index: Index) -> (r: Result<String, ArgError>) {
        match <String as FromLua>::from_lua(state, index) {
            Some(x) => Ok(x),
            None => Err(ArgError { index, expected: Type::String, actual: state.type_of(index) }),
        }
    }
}

impl FromIndex for Vec<u8> {
    open spec fn takes(d: Datum) -> bool {
        <Vec<u8> as FromLua>::accepts(d)
    }

    open spec fn gives(d: Datum, x: Vec<u8>) -> bool {
        <Vec<u8> as FromLua>::converts(d, x)
    }

    open spec fn wanted() -> Type {
        Type::String
    }

    fn from_lua<H>(state: &State<H>, index: Index) -> (r: Result<Vec<u8>, ArgError>) {
        match <Vec<u8> as FromLua>::from_lua(state, index) {
            Some(x) => Ok(x),
            None => Err(ArgError { index, expected: Type::String, actual: state.type_of(index) }),
        }
    }
}

impl FromIndex for StrictBool {
    open spec fn takes(d: Datum) -> bool {
        <StrictBool as FromLua>::accepts(d)
    }

    open spec fn gives(d: Datum, x: StrictBool) -> bool {
        <StrictBool as FromLua>::converts(d, x)
    }

    open spec fn wanted() -> Type {
        Type::Boolean
    }

    fn from_lua<H>(state: &State<H>, index: Index) -> (r: Result<StrictBool, ArgError>) {
        match <StrictBool as FromLua>::from_lua(state, index) {
            Some(x) => Ok(x),
            None => Err(ArgError { index, expected: Type::Boolean, actual: state.type_of(index) }),
        }
    }
}

impl FromIndex for Option<i8> {
    open spec fn takes(d: Datum) -> bool {
        true
    }

    open spec fn gives(d: Datum, x: Option<i8>) -> bool {
        <Option<i8> as FromLua>::converts(d, x)
    }

    open spec fn wanted() -> Type {
        Type::Number
    }

    fn from_lua<H>(state: &State<H>, index: Index) -> (r: Result<Option<i8>, ArgError>) {
        Ok(<i8 as FromLua>::from_lua(state, index))
    }
}

impl FromIndex for Option<u8> {
    open spec fn takes(d: Datum) -> bool {
        true
    }

    open spec fn gives(d: Datum, x: Option<u8>) -> bool {
        <Option<u8> as FromLua>::converts(d, x)
    }

    open spec fn wanted() -> Type {
        Type::Number
    }

    fn from_lua<H>(state: &State<H>, index: Index) -> (r: Result<Option<u8>, ArgError>) {
        Ok(<u8 as FromLua>::from_lua(state, index))
    }
}

impl FromIndex for Option<i16> {
    open spec fn takes(d: Datum) -> bool {
        true
    }

    open spec fn gives(d: Datum, x: Option<i16>) -> bool {
        <Option<i16> as FromLua>::converts(d, x)
    }

    open spec fn wanted() -> Type {
        Type::Number
    }

    fn from_lua<H>(state: &State<H>, index: Index) -> (r: Result<Option<i16>, ArgError>) {
        Ok(<i16 as FromLua>::from_lua(state, index))
    }
}

impl FromIndex for Option<u16> {
    open spec fn takes(d: Datum) -> bool {
        true
    }

    open spec fn gives(d: Datum, x: Option<u16>) -> bool {
        <Option<u16> as FromLua>::converts(d, x)
    }

    open spec fn wanted() -> Type {
        Type::Number
    }

    fn from_lua<H>(state: &State<H>, index: Index) -> (r: Result<Option<u16>, ArgError>) {
        Ok(<u16 as FromLua>::from_lua(state, index))
    }
}

impl FromIndex for Option<i32> {
    open spec fn takes(d: Datum) -> bool {
        true
    }

    open spec fn gives(d: Datum, x: Option<i32>) -> bool {
        <Option<i32> as FromLua>::converts(d, x)
    }

    open spec fn wanted() -> Type {
        Type::Number
    }

    fn from_lua<H>(state: &State<H>, index: Index) -> (r: Result<Option<i32>, ArgError>) {
        Ok(<i32 as FromLua>::from_lua(state, index))
    }
}

impl FromIndex for Option<u32> {
    open spec fn takes(d: Datum) -> bool {
        true
    }

    open spec fn gives(d: Datum, x: Option<u32>) -> bool {
        <Option<u32> as FromLua>::converts(d, x)
    }

    open spec fn wanted() -> Type {
        Type::Number
    }

    fn from_lua<H>(state: &State<H>, index: Index) -> (r: Result<Option<u32>, ArgError>) {
        Ok(<u32 as FromLua>::from_lua(state, index))
    }
}

impl FromIndex for Option<i64> {
    open spec fn takes(d: Datum) -> bool {
        true
    }

    open spec fn gives(d: Datum, x: Option<i64>) -> bool {
        <Option<i64> as FromLua>::converts(d, x)
    }

    open spec fn wanted() -> Type {
        Type::Number
    }

    fn from_lua<H>(state: &State<H>, index: Index) -> (r: Result<Option<i64>, ArgError>) {
        Ok(<i64 as FromLua>::from_lua(state, index))
    }
}

impl FromIndex for Option<u64> {
    open spec fn takes(d: Datum) -> bool {
        true
    }

    open spec fn gives(d: Datum, x: Option<u64>) -> bool {
        <Option<u64> as FromLua>::converts(d, x)
    }

    open spec fn wanted() -> Type {
        Type::Number
    }

    fn from_lua<H>(state: &State<H>, index: Index) -> (r: Result<Option<u64>, ArgError>) {
        Ok(<u64 as FromLua>::from_lua(state, index))
    }
}

impl FromIndex for Option<isize> {
    open spec fn takes(d: Datum) -> bool {
        true
    }

    open spec fn gives(d: Datum, x: Option<isize>) -> bool {
        <Option<isize> as FromLua>::converts(d, x)
    }

    open spec fn wanted() -> Type {
        Type::Number
    }

    fn from_lua<H>(state: &State<H>, index: Index) -> (r: Result<Option<isize>, ArgError>) {
        Ok(<isize as FromLua>::from_lua(state, index))
    }
}

impl FromIndex for Option<usize> {
    open spec fn takes(d: Datum) -> bool {
        true
    }

    open spec fn gives(d: Datum, x: Option<usize>) -> bool {
        <Option<usize> as FromLua>::converts(d, x)
    }

    open spec fn wanted() -> Type {
        Type::Number
    }

    fn from_lua<H>(state: &State<H>, index: Index) -> (r: Result<Option<usize>, ArgError>) {
        Ok(<usize as FromLua>::from_lua(state, index))
    }
}

impl FromIndex for Option<NumberBits> {
    open spec fn takes(d: Datum) -> bool {
        true
    }

    open spec fn gives(d: Datum, x: Option<NumberBits>) -> bool {
        <Option<NumberBits> as FromLua>::converts(d, x)
    }

    open spec fn wanted() -> Type {
        Type::Number
    }

    fn from_lua<H>(state: &State<H>, index: Index) -> (r: Result<Option<NumberBits>, ArgError>) {
        Ok(<NumberBits as FromLua>::from_lua(state, index))
    }
}

impl FromIndex for Option<String> {
    open spec fn takes(d: Datum) -> bool {
        true
    }

    open spec fn gives(d: Datum, x: Option<String>) -> bool {
        <Option<String> as FromLua>::converts(d, x)
    }

    open spec fn wanted() -> Type {
        Type::String
    }

    fn from_lua<H>(state: &State<H>, index: Index) -> (r: Result<Option<String>, ArgError>) {
        Ok(<String as FromLua>::from_lua(state, index))
    }
}

impl FromIndex for Option<Vec<u8>> {
    open spec fn takes(d: Datum) -> bool {
        true
    }

    open spec fn gives(d: Datum, x: Option<Vec<u8>>) -> bool {
        <Option<Vec<u8>> as FromLua>::converts(d, x)
    }

    open spec fn wanted() -> Type {
        Type::String
    }

    fn from_lua<H>(state: &State<H>, index: Index) -> (r: Result<Option<Vec<u8>>, ArgError>) {
        Ok(<Vec<u8> as FromLua>::from_lua(state, index))
    }
}

impl FromIndex for Option<bool> {
    /// Every slot is taken; only a boolean gives `Some`.
    open spec fn takes(d: Datum) -> bool {
        true
    }

    open spec fn gives(d: Datum, x: Option<bool>) -> bool {
        x == match d {
            Datum::Bool(b) => Some(b),
            _ => None::<bool>,
        }
    }

    open spec fn wanted() -> Type {
        Type::Boolean
    }

    fn from_lua<H>(state: &State<H>, index: Index) -> (r: Result<Option<bool>, ArgError>) {
        if state.is_bool(index) {
            Ok(Some(state.to_bool(index)))
        } else {
            Ok(None)
        }
    }
}

impl FromIndex for bool {
    open spec fn takes(d: Datum) -> bool {
        true
    }

    open spec fn gives(d: Datum, x: bool) -> bool {
        x == truthy(d)
    }

    open spec fn wanted() -> Type {
        Type::Boolean
    }

    fn from_lua<H>(state: &State<H>, index: Index) -> (r: Result<bool, ArgError>) {
        Ok(state.to_bool(index))
    }
}

/// A value pushed onto the stack is what index -1 then names, one slot
/// above the old top; with the round-trip lemmas, reading it back gives the
/// value itself.
pub proof fn lemma_pushed_on_top<H>(before: State<H>, after: State<H>, d: Datum)
    requires
        before.wf(),
        after.pushed(&before, d),
    ensures
        after.at(-1) == d,
        after.top() == before.top() + 1,
{
}

/// An optional integer read back from the slot it was pushed as is itself:
/// `None` goes through nil.
pub proof fn lemma_round_trip_option_i64(x: Option<i64>)
    ensures
        <Option<i64> as FromLua>::accepts(x.lua_datum()),
        forall|y: Option<i64>| <Option<i64> as FromLua>::converts(x.lua_datum(), y) ==> y == x,
{
}

/// Reading a string slot as a mandatory integer argument fails with an
/// argument error that names the slot's index and both types; reading it
/// as an optional integer gives `None` and no error.
pub proof fn lemma_strict_vs_lenient<H>(state: State<H>, index: Index, strict: Result<i64, ArgError>, lenient: Result<Option<i64>, ArgError>)
    requires
        state.at(index as int) is Str,
        strict is Ok == <i64 as FromIndex>::takes(state.at(index as int)),
        strict matches Err(e) ==> e == (ArgError { index, expected: <i64 as FromIndex>::wanted(), actual: type_of_datum(state.at(index as int)) }),
        lenient is Ok == <Option<i64> as FromIndex>::takes(state.at(index as int)),
        lenient matches Ok(x) ==> <Option<i64> as FromIndex>::gives(state.at(index as int), x),
    ensures
        strict == Err::<i64, ArgError>(ArgError { index, expected: Type::Number, actual: Type::String }),
        lenient == Ok::<Option<i64>, ArgError>(None),
{
}

/// Pushing multiple values adds exactly `COUNT` slots on top, keeps every
/// slot below them, and the `COUNT` slots from the old top on are the
/// pushed values, so reading them back reads exactly those slots.
pub proof fn lemma_arity<H, T: ToLuaMulti>(before: State<H>, after: State<H>, x: T)
    requires
        before.wf(),
        after.base() == before.base(),
        after.view() == before.view() + x.lua_datums(),
    ensures
        after.top() == before.top() + T::COUNT,
        after.view().subrange(0, before.view().len() as int) == before.view(),
        after.run(before.top() + 1, T::COUNT as nat) == x.lua_datums(),
{
    x.lemma_count();
    assert(after.view().subrange(0, before.view().len() as int) =~= before.view());
    assert(after.run(before.top() + 1, T::COUNT as nat) =~= x.lua_datums());
}

impl<H> State<H> {
    /// Pushes one value.
    pub fn push<T: ToLua>(&mut self, value: T)
        requires
            old(self).wf(),
            old(self).room(1),
        ensures
            final(self).wf(),
            final(self).pushed(old(self), value.lua_datum()),
    {
        value.to_lua(self);
    }

    /// The value at `index`, or `None` if the slot does not convert.
    pub fn arg<T: FromLua>(&self, index: Index) -> (r: Option<T>)
        requires
            self.wf(),
        ensures
            r is Some == T::accepts(self.at(index as int)),
            r matches Some(x) ==> T::converts(self.at(index as int), x),
    {
        T::from_lua(self, index)
    }

    /// The `COUNT` values from `index` on, or the raise that makes the
    /// native function fail when any of them does not convert.
    pub fn args<T: FromLuaMulti>(&self, index: Index) -> (r: Result<T, Raise>)
        requires
            self.wf(),
            index > i32::MIN,
            index + T::COUNT <= i32::MAX,
        ensures
            r is Ok == T::accepts_all(self.run(index as int, T::COUNT as nat)),
            r matches Ok(x) ==> T::converts_all(self.run(index as int, T::COUNT as nat), x),
            r is Err ==> r matches Err(Raise::BadArgument(_)),
            r matches Err(Raise::BadArgument(e)) ==> exists|j: int| #![trigger T::wanted_nth(j)] 0 <= j < T::COUNT
                && e.index == index + j
                && !T::accepts_nth(self.at(index + j), j)
                && (forall|k: int| 0 <= k < j ==> T::accepts_nth(#[trigger] self.at(index + k), k))
                && e.expected == T::wanted_nth(j) && e.actual == type_of_datum(self.at(index + j)),
    {
        match T::from_lua(self, index) {
            Some(x) => Ok(x),
            None => Err(Raise::BadArgument(T::reject(self, index))),
        }
    }

    /// The arguments of a native function, from index 1 on.
    pub fn fargs<T: FromLuaMulti>(&self) -> (r: Result<T, Raise>)
        requires
            self.wf(),
            1 + T::COUNT <= i32::MAX,
        ensures
            r is Ok == T::accepts_all(self.run(1, T::COUNT as nat)),
            r matches Ok(x) ==> T::converts_all(self.run(1, T::COUNT as nat), x),
    {
        self.args::<T>(1)
    }

    /// The arguments of a method, from index 2 on (index 1 is the object).
    pub fn margs<T: FromLuaMulti>(&self) -> (r: Result<T, Raise>)
        requires
            self.wf(),
            2 + T::COUNT <= i32::MAX,
        ensures
            r is Ok == T::accepts_all(self.run(2, T::COUNT as nat)),
            r matches Ok(x) ==> T::converts_all(self.run(2, T::COUNT as nat), x),
    {
        self.args::<T>(2)
    }

    /// Pushes multiple values and returns how many slots they took, which a
    /// native function returns as its result count.
    pub fn pushx<T: ToLuaMulti>(&mut self, t: T) -> (r: Index)
        requires
            old(self).wf(),
            old(self).room(T::COUNT as int),
        ensures
            final(self).wf(),
            final(self).base() == old(self).base(),
            final(self).same_heap(old(self)),
            final(self).view() == old(self).view() + t.lua_datums(),
            r == T::COUNT,
    {
        t.to_lua(self);
        T::COUNT as Index
    }

    /// The same as `pushx`.
    pub fn to_lua<T: ToLuaMulti>(&mut self, t: T) -> (r: Index)
        requires
            old(self).wf(),
            old(self).room(T::COUNT as int),
        ensures
            final(self).wf(),
            final(self).base() == old(self).base(),
            final(self).same_heap(old(self)),
            final(self).view() == old(self).view() + t.lua_datums(),
            r == T::COUNT,
    {
        self.pushx(t)
    }
}

impl<H: Host> State<H> {
    /// Calls the value at `f` with `args` and reads `R::COUNT` results.
    /// The results, or the error string of a failed call, stay on the
    /// stack for the caller to pop.
    pub fn call<T: ToLuaMulti, R: FromLuaMulti>(&mut self, f: Index, args: T) -> (r: Result<R, CallError>)
        requires
            old(self).wf(),
            old(self).view().len() + 1 + T::COUNT + R::COUNT <= LUAI_MAXSTACK,
            old(self).top() + T::COUNT + R::COUNT + 1 <= i32::MAX,
        ensures
            final(self).wf(),
            final(self).base() == old(self).base(),
            final(self).view().subrange(0, old(self).view().len() as int) == old(self).view(),
            r matches Err(CallError::VmError(s)) ==> s == ThreadStatus::RuntimeError
                && final(self).view().len() == old(self).view().len() + 1 && final(self).view().last() is Str,
            !(r matches Err(CallError::VmError(_))) ==> final(self).view().len() == old(self).view().len() + R::COUNT,
            r is Ok == (!(r matches Err(CallError::VmError(_))) && R::accepts_all(final(self).run(old(self).top() + 1, R::COUNT as nat))),
            r matches Ok(x) ==> R::converts_all(final(self).run(old(self).top() + 1, R::COUNT as nat), x),
            !(or_nil(old(self).at(f as int)) is Function) ==> (r matches Err(CallError::VmError(ThreadStatus::RuntimeError)))
                && final(self).view().last() == Datum::Str(call_error_text(type_of_datum(or_nil(old(self).at(f as int))))),
            or_nil(old(self).at(f as int)) is Function && old(self).depth() >= LUAI_MAXCCALLS
                ==> (r matches Err(CallError::VmError(ThreadStatus::RuntimeError)))
                && final(self).view().last() == Datum::Str(failure_text(CallFailure::TooDeep)),
            or_nil(old(self).at(f as int)) matches Datum::Function(o) && old(self).depth() < LUAI_MAXCCALLS
                && old(self).payload(o) is None
                ==> (r matches Err(CallError::VmError(ThreadStatus::RuntimeError)))
                && final(self).view().last() == Datum::Str(failure_text(CallFailure::Unavailable)),
            or_nil(old(self).at(f as int)) matches Datum::Function(o) && old(self).depth() < LUAI_MAXCCALLS
                && old(self).payload(o) is Some
                ==> exists|res: Result<Index, Raise>, results: Seq<Datum>|
                    final(self).view() == old(self).view()
                        + #[trigger] call_outcome(res, results, old(self).view().len() as int, R::COUNT as Index).1
                    && (call_outcome(res, results, old(self).view().len() as int, R::COUNT as Index).0 == ThreadStatus::Success
                        <==> !(r matches Err(CallError::VmError(_)))),
    {
        proof {
            args.lemma_count();
            R::lemma_arity();
            State::<H>::lemma_same_heap_refl(&*old(self));
        }
        let ghost before = self.view();
        let ghost d = or_nil(old(self).at(f as int));
        let top = self.get_top();
        self.push_value(f);
        let ghost s1 = *self;
        let ghost ds = args.lua_datums();
        let nargs = self.pushx(args);
        proof {
            State::lemma_same_heap_trans(&*self, &s1, &*old(self));
            State::lemma_same_heap_facts(&*self, &*old(self));
            assert(self.view() == before.push(d) + ds);
            assert(self.pos(-(nargs + 1)) == Some(before.len() as int));
            assert(self.view()[before.len() as int] == d);
            assert(self.view().subrange(0, before.len() as int) =~= before);
        }
        let ghost s2 = *self;
        let status = self.pcall(nargs, R::COUNT as Index);
        proof {
            assert(self.view().subrange(0, before.len() as int) =~= before);
            if let Datum::Function(o) = d {
                if old(self).depth() < LUAI_MAXCCALLS && old(self).payload(o) is Some {
                    let (res, results) = choose|res: Result<Index, Raise>, results: Seq<Datum>|
                        #[trigger] call_outcome(res, results, s2.view().len() - nargs - 1, R::COUNT as Index).0 == status
                        && self.view() == s2.view().subrange(0, s2.view().len() - nargs - 1)
                            + call_outcome(res, results, s2.view().len() - nargs - 1, R::COUNT as Index).1;
                    assert(s2.view().subrange(0, s2.view().len() - nargs - 1) =~= before);
                    assert(call_outcome(res, results, before.len() as int, R::COUNT as Index).0 == status);
                }
            }
        }
        match status {
            ThreadStatus::Success => {
                match R::from_lua(self, top + 1) {
                    Some(x) => Ok(x),
                    None => Err(CallError::ValueNotMatch),
                }
            },
            s => Err(CallError::VmError(s)),
        }
    }
}

} // verus!
