use vstd::prelude::*;

verus! {

/// Index of a stack slot: positive indices count from the bottom of the
/// current frame (1 is its first slot), negative ones from the top.
pub type Index = i32;

/// The dynamic type of a stack slot.
#[derive(Clone, Copy, Debug, PartialEq, Eq, Structural)]
pub enum Type {
    NoValue,
    Nil,
    Boolean,
    LightUserdata,
    Number,
    String,
    Table,
    Function,
    Userdata,
    Thread,
    Invalid,
}

/// What one stack slot holds, as stored by a state.
///
/// Floats are kept as their IEEE-754 bit pattern; strings are byte strings.
/// Tables and objects are handles into the state's heap.
#[derive(Debug)]
pub enum Slot {
    Nil,
    Bool(bool),
    Int(i64),
    Num(u64),
    Str(Vec<u8>),
    Table(usize),
    Function(usize),
    Userdata(usize),
}

/// The mathematical content of a slot; `Absent` stands for an index outside
/// the current frame.
pub enum Datum {
    Absent,
    Nil,
    Bool(bool),
    Int(i64),
    Num(u64),
    Str(Seq<u8>),
    Table(nat),
    Function(nat),
    Userdata(nat),
}

impl Slot {
    pub open spec fn view(&self) -> Datum {
        match self {
            Slot::Nil => Datum::Nil,
            Slot::Bool(b) => Datum::Bool(*b),
            Slot::Int(i) => Datum::Int(*i),
            Slot::Num(n) => Datum::Num(*n),
            Slot::Str(s) => Datum::Str(s@),
            Slot::Table(t) => Datum::Table(*t as nat),
            Slot::Function(f) => Datum::Function(*f as nat),
            Slot::Userdata(u) => Datum::Userdata(*u as nat),
        }
    }

    /// A copy of this slot; strings are copied byte for byte.
    pub fn duplicate(&self) -> (r: Slot)
        ensures
            r.view() == self.view(),
    {
        match self {
            Slot::Nil => Slot::Nil,
            Slot::Bool(b) => Slot::Bool(*b),
            Slot::Int(i) => Slot::Int(*i),
            Slot::Num(n) => Slot::Num(*n),
            Slot::Str(s) => Slot::Str(s.clone()),
            Slot::Table(t) => Slot::Table(*t),
            Slot::Function(f) => Slot::Function(*f),
            Slot::Userdata(u) => Slot::Userdata(*u),
        }
    }

    pub fn type_of(&self) -> (r: Type)
        ensures
            r == type_of_datum(self.view()),
    {
        match self {
            Slot::Nil => Type::Nil,
            Slot::Bool(_) => Type::Boolean,
            Slot::Int(_) => Type::Number,
            Slot::Num(_) => Type::Number,
            Slot::Str(_) => Type::String,
            Slot::Table(_) => Type::Table,
            Slot::Function(_) => Type::Function,
            Slot::Userdata(_) => Type::Userdata,
        }
    }
}

/// The dynamic type of a datum.
pub open spec fn type_of_datum(d: Datum) -> Type {
    match d {
        Datum::Absent => Type::NoValue,
        Datum::Nil => Type::Nil,
        Datum::Bool(_) => Type::Boolean,
        Datum::Int(_) => Type::Number,
        Datum::Num(_) => Type::Number,
        Datum::Str(_) => Type::String,
        Datum::Table(_) => Type::Table,
        Datum::Function(_) => Type::Function,
        Datum::Userdata(_) => Type::Userdata,
    }
}

/// The VM's truthiness: everything but nil, false and an absent slot is true.
pub open spec fn truthy(d: Datum) -> bool {
    match d {
        Datum::Absent => false,
        Datum::Nil => false,
        Datum::Bool(b) => b,
        _ => true,
    }
}

/// A read-out of one slot, borrowing string contents from the stack.
#[derive(Debug)]
pub enum Value<'a> {
    Absent,
    Nil,
    Int(i64),
    Num(u64),
    Str(&'a [u8]),
    Bool(bool),
    LightUserdata,
    Table,
    Function,
    Userdata,
    Thread,
}

/// Status of a state after a protected call.
#[derive(Clone, Copy, Debug, PartialEq, Eq, Structural)]
pub enum ThreadStatus {
    Success,
    Yield,
    RuntimeError,
    SyntaxError,
    MemoryError,
    GcError,
    MessageHandlerError,
    FileError,
}

impl ThreadStatus {
    pub open spec fn spec_is_err(self) -> bool {
        !(self == ThreadStatus::Success || self == ThreadStatus::Yield)
    }

    /// Returns `true` for error statuses and `false` for `Success` and `Yield`.
    pub fn is_err(self) -> (r: bool)
        ensures
            r == self.spec_is_err(),
    {
        match self {
            ThreadStatus::Success | ThreadStatus::Yield => false,
            _ => true,
        }
    }
}

/// Type codes of the VM's C interface.
pub const LUA_TNONE: i32 = -1;
pub const LUA_TNIL: i32 = 0;
pub const LUA_TBOOLEAN: i32 = 1;
pub const LUA_TLIGHTUSERDATA: i32 = 2;
pub const LUA_TNUMBER: i32 = 3;
pub const LUA_TSTRING: i32 = 4;
pub const LUA_TTABLE: i32 = 5;
pub const LUA_TFUNCTION: i32 = 6;
pub const LUA_TUSERDATA: i32 = 7;
pub const LUA_TTHREAD: i32 = 8;

/// Status codes of the VM's C interface.
pub const LUA_OK: i32 = 0;
pub const LUA_YIELD: i32 = 1;
pub const LUA_ERRRUN: i32 = 2;
pub const LUA_ERRSYNTAX: i32 = 3;
pub const LUA_ERRMEM: i32 = 4;
pub const LUA_ERRGCMM: i32 = 5;
pub const LUA_ERRERR: i32 = 6;
pub const LUA_ERRFILE: i32 = 7;

impl Type {
    /// The type that a type code of the VM's C interface stands for;
    /// `Invalid` for any other code.
    pub fn from_c_int(i: i32) -> (r: Type)
        ensures
            r == match i {
                0 => Type::Nil,
                1 => Type::Boolean,
                2 => Type::LightUserdata,
                3 => Type::Number,
                4 => Type::String,
                5 => Type::Table,
                6 => Type::Function,
                7 => Type::Userdata,
                8 => Type::Thread,
                _ => Type::Invalid,
            },
    {
        if i == LUA_TNIL {
            Type::Nil
        } else if i == LUA_TBOOLEAN {
            Type::Boolean
        } else if i == LUA_TLIGHTUSERDATA {
            Type::LightUserdata
        } else if i == LUA_TNUMBER {
            Type::Number
        } else if i == LUA_TSTRING {
            Type::String
        } else if i == LUA_TTABLE {
            Type::Table
        } else if i == LUA_TFUNCTION {
            Type::Function
        } else if i == LUA_TUSERDATA {
            Type::Userdata
        } else if i == LUA_TTHREAD {
            Type::Thread
        } else {
            Type::Invalid
        }
    }
}

impl ThreadStatus {
    /// The status that a status code of the VM's C interface stands for.
    pub fn from_c_int(i: i32) -> (r: ThreadStatus)
        requires
            LUA_OK <= i <= LUA_ERRFILE,
        ensures
            r == match i {
                0 => ThreadStatus::Success,
                1 => ThreadStatus::Yield,
                2 => ThreadStatus::RuntimeError,
                3 => ThreadStatus::SyntaxError,
                4 => ThreadStatus::MemoryError,
                5 => ThreadStatus::GcError,
                6 => ThreadStatus::MessageHandlerError,
                _ => ThreadStatus::FileError,
            },
    {
        if i == LUA_OK {
            ThreadStatus::Success
        } else if i == LUA_YIELD {
            ThreadStatus::Yield
        } else if i == LUA_ERRRUN {
            ThreadStatus::RuntimeError
        } else if i == LUA_ERRSYNTAX {
            ThreadStatus::SyntaxError
        } else if i == LUA_ERRMEM {
            ThreadStatus::MemoryError
        } else if i == LUA_ERRGCMM {
            ThreadStatus::GcError
        } else if i == LUA_ERRERR {
            ThreadStatus::MessageHandlerError
        } else {
            ThreadStatus::FileError
        }
    }
}

/// Failure of a call made from the host into the VM.
#[derive(Clone, Copy, Debug, PartialEq, Eq, Structural)]
pub enum CallError {
    /// The call succeeded but its results did not convert to the requested types.
    ValueNotMatch,
    /// The call itself failed with this status.
    VmError(ThreadStatus),
}

/// Bookkeeping value returned by `reference`.
#[derive(Clone, Copy, Debug, PartialEq, Eq, Hash, Structural)]
pub struct Reference(pub i32);

/// The reference value of `nil`.
pub const LUA_REFNIL: i32 = -1;

/// The reference value that never names a stored value.
pub const LUA_NOREF: i32 = -2;

impl Reference {
    /// Returns `true` if this reference is the one handed out for `nil`.
    pub fn is_nil_ref(self) -> (r: bool)
        ensures
            r == (self.0 == LUA_REFNIL),
    {
        self.0 == LUA_REFNIL
    }

    /// Returns `true` if this reference is the one that names nothing.
    pub fn is_no_ref(self) -> (r: bool)
        ensures
            r == (self.0 == LUA_NOREF),
    {
        self.0 == LUA_NOREF
    }

    /// The number this reference stands for.
    pub fn value(self) -> (r: i32)
        ensures
            r == self.0,
    {
        self.0
    }
}

/// The built-in libraries of the VM.
#[derive(Clone, Copy, Debug, PartialEq, Eq, Structural)]
pub enum Library {
    Base,
    Coroutine,
    Table,
    Io,
    Os,
    String,
    Utf8,
    Bit32,
    Math,
    Debug,
    Package,
}

impl Library {
    /// The name under which scripts see the library.
    pub fn name(&self) -> (r: &'static str)
        ensures
            r@ == library_name(*self),
    {
        match *self {
            Library::Base => "_G",
            Library::Coroutine => "coroutine",
            Library::Table => "table",
            Library::Io => "io",
            Library::Os => "os",
            Library::String => "string",
            Library::Utf8 => "utf8",
            Library::Bit32 => "bit32",
            Library::Math => "math",
            Library::Debug => "debug",
            Library::Package => "package",
        }
    }
}

/// The name under which scripts see a library.
pub open spec fn library_name(l: Library) -> Seq<char> {
    match l {
        Library::Base => "_G"@,
        Library::Coroutine => "coroutine"@,
        Library::Table => "table"@,
        Library::Io => "io"@,
        Library::Os => "os"@,
        Library::String => "string"@,
        Library::Utf8 => "utf8"@,
        Library::Bit32 => "bit32"@,
        Library::Math => "math"@,
        Library::Debug => "debug"@,
        Library::Package => "package"@,
    }
}

} // verus!
