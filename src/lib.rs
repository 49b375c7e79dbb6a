//! Typed marshalling between a host program and the value stack of an
//! embedded, dynamically typed VM: scalar and multi-value conversions,
//! strict and lenient argument extraction, host closures that the VM calls
//! through one trampoline and finalizes when collected, and behavior tables
//! built once per host type and cached per VM instance.

pub mod value;
mod text;
pub mod error;
pub mod state;
pub mod convert;
pub mod auxlib;
pub mod spin;

pub use value::{Index, Type, Slot, Datum, Value, ThreadStatus, CallError, Reference, Library, LUA_REFNIL, LUA_NOREF};
pub use error::{ArgError, Raise};
pub use state::{State, Host, InitMetatable, Metatable, MetatableDecl, LUAI_MAXSTACK, LUA_MULTRET, LUAI_MAXCCALLS, LUA_RIDX_GLOBALS};
pub use convert::{ToLua, FromLua, ToLuaMulti, FromLuaMulti, FromIndex, NumberBits, StrictBool};
pub use spin::{SpinLock, asm_pause};
