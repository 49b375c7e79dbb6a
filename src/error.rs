use vstd::prelude::*;
use crate::value::{Index, Type};

verus! {

/// A mandatory argument that did not convert: its position, the type the
/// native function wanted and the type the slot held.
#[derive(Clone, Copy, Debug, PartialEq, Eq, Structural)]
pub struct ArgError {
    pub index: Index,
    pub expected: Type,
    pub actual: Type,
}

/// Why a native function gave up; the bridge turns it into a VM error.
#[derive(Debug)]
pub enum Raise {
    /// A mandatory argument did not convert.
    BadArgument(ArgError),
    /// The arguments did not match the shape the function declared.
    ArgsNotMatch,
    /// An argument was refused for the reason that the message gives.
    Argument { index: Index, message: Vec<u8> },
    /// Any other failure, with its message.
    Message(String),
}

impl From<ArgError> for Raise {
    fn from(e: ArgError) -> (r: Raise)
        ensures
            r == Raise::BadArgument(e),
    {
        Raise::BadArgument(e)
    }
}

impl vstd::std_specs::convert::FromSpecImpl<ArgError> for Raise {
    open spec fn obeys_from_spec() -> bool {
        true
    }

    open spec fn from_spec(v: ArgError) -> Raise {
        Raise::BadArgument(v)
    }
}

/// The name the VM gives a type.
pub open spec fn typename(t: Type) -> Seq<u8> {
    match t {
        Type::NoValue => seq![110u8, 111u8, 32u8, 118u8, 97u8, 108u8, 117u8, 101u8], // no value
        Type::Nil => seq![110u8, 105u8, 108u8], // nil
        Type::Boolean => seq![98u8, 111u8, 111u8, 108u8, 101u8, 97u8, 110u8], // boolean
        Type::LightUserdata => seq![117u8, 115u8, 101u8, 114u8, 100u8, 97u8, 116u8, 97u8], // userdata
        Type::Number => seq![110u8, 117u8, 109u8, 98u8, 101u8, 114u8], // number
        Type::String => seq![115u8, 116u8, 114u8, 105u8, 110u8, 103u8], // string
        Type::Table => seq![116u8, 97u8, 98u8, 108u8, 101u8], // table
        Type::Function => seq![102u8, 117u8, 110u8, 99u8, 116u8, 105u8, 111u8, 110u8], // function
        Type::Userdata => seq![117u8, 115u8, 101u8, 114u8, 100u8, 97u8, 116u8, 97u8], // userdata
        Type::Thread => seq![116u8, 104u8, 114u8, 101u8, 97u8, 100u8], // thread
        Type::Invalid => seq![105u8, 110u8, 118u8, 97u8, 108u8, 105u8, 100u8], // invalid
    }
}

/// The name the VM gives a type.
pub fn typename_bytes(t: Type) -> (r: Vec<u8>)
    ensures
        r@ == typename(t),
{
    match t {
        Type::NoValue => {
            let r = vec![110u8, 111u8, 32u8, 118u8, 97u8, 108u8, 117u8, 101u8];
            proof { assert(r@ =~= seq![110u8, 111u8, 32u8, 118u8, 97u8, 108u8, 117u8, 101u8]); }
            r
        },
        Type::Nil => {
            let r = vec![110u8, 105u8, 108u8];
            proof { assert(r@ =~= seq![110u8, 105u8, 108u8]); }
            r
        },
        Type::Boolean => {
            let r = vec![98u8, 111u8, 111u8, 108u8, 101u8, 97u8, 110u8];
            proof { assert(r@ =~= seq![98u8, 111u8, 111u8, 108u8, 101u8, 97u8, 110u8]); }
            r
        },
        Type::LightUserdata => {
            let r = vec![117u8, 115u8, 101u8, 114u8, 100u8, 97u8, 116u8, 97u8];
            proof { assert(r@ =~= seq![117u8, 115u8, 101u8, 114u8, 100u8, 97u8, 116u8, 97u8]); }
            r
        },
        Type::Number => {
            let r = vec![110u8, 117u8, 109u8, 98u8, 101u8, 114u8];
            proof { assert(r@ =~= seq![110u8, 117u8, 109u8, 98u8, 101u8, 114u8]); }
            r
        },
        Type::String => {
            let r = vec![115u8, 116u8, 114u8, 105u8, 110u8, 103u8];
            proof { assert(r@ =~= seq![115u8, 116u8, 114u8, 105u8, 110u8, 103u8]); }
            r
        },
        Type::Table => {
            let r = vec![116u8, 97u8, 98u8, 108u8, 101u8];
            proof { assert(r@ =~= seq![116u8, 97u8, 98u8, 108u8, 101u8]); }
            r
        },
        Type::Function => {
            let r = vec![102u8, 117u8, 110u8, 99u8, 116u8, 105u8, 111u8, 110u8];
            proof { assert(r@ =~= seq![102u8, 117u8, 110u8, 99u8, 116u8, 105u8, 111u8, 110u8]); }
            r
        },
        Type::Userdata => {
            let r = vec![117u8, 115u8, 101u8, 114u8, 100u8, 97u8, 116u8, 97u8];
            proof { assert(r@ =~= seq![117u8, 115u8, 101u8, 114u8, 100u8, 97u8, 116u8, 97u8]); }
            r
        },
        Type::Thread => {
            let r = vec![116u8, 104u8, 114u8, 101u8, 97u8, 100u8];
            proof { assert(r@ =~= seq![116u8, 104u8, 114u8, 101u8, 97u8, 100u8]); }
            r
        },
        Type::Invalid => {
            let r = vec![105u8, 110u8, 118u8, 97u8, 108u8, 105u8, 100u8];
            proof { assert(r@ =~= seq![105u8, 110u8, 118u8, 97u8, 108u8, 105u8, 100u8]); }
            r
        },
    }
}

/// Decimal digits of `n`.
pub open spec fn decimal(n: nat) -> Seq<u8>
    decreases n,
{
    if n < 10 {
        seq![(48 + n) as u8]
    } else {
        decimal(n / 10).push((48 + n % 10) as u8)
    }
}

/// Decimal text of `i`, with a minus sign when negative.
pub open spec fn signed_decimal(i: int) -> Seq<u8> {
    if i < 0 { seq![45u8] + decimal((-i) as nat) } else { decimal(i as nat) }
}

/// `bad argument #`
pub open spec fn text_bad() -> Seq<u8> {
    seq![98u8, 97u8, 100u8, 32u8, 97u8, 114u8, 103u8, 117u8, 109u8, 101u8, 110u8, 116u8, 32u8, 35u8]
}

/// ` (`
pub open spec fn text_open() -> Seq<u8> {
    seq![32u8, 40u8]
}

/// ` expected, got `
pub open spec fn text_mid() -> Seq<u8> {
    seq![32u8, 101u8, 120u8, 112u8, 101u8, 99u8, 116u8, 101u8, 100u8, 44u8, 32u8, 103u8, 111u8, 116u8, 32u8]
}

/// `)`
pub open spec fn text_close() -> Seq<u8> {
    seq![41u8]
}

/// `attempt to call a `
pub open spec fn text_call() -> Seq<u8> {
    seq![97u8, 116u8, 116u8, 101u8, 109u8, 112u8, 116u8, 32u8, 116u8, 111u8, 32u8, 99u8, 97u8, 108u8, 108u8, 32u8, 97u8, 32u8]
}

/// ` value`
pub open spec fn text_value() -> Seq<u8> {
    seq![32u8, 118u8, 97u8, 108u8, 117u8, 101u8]
}

/// `args not match`
pub open spec fn text_args() -> Seq<u8> {
    seq![97u8, 114u8, 103u8, 115u8, 32u8, 110u8, 111u8, 116u8, 32u8, 109u8, 97u8, 116u8, 99u8, 104u8]
}

/// `attempt to call a function that is running or finalized`
pub open spec fn text_unavailable() -> Seq<u8> {
    seq![97u8, 116u8, 116u8, 101u8, 109u8, 112u8, 116u8, 32u8, 116u8, 111u8, 32u8, 99u8, 97u8, 108u8, 108u8, 32u8, 97u8, 32u8, 102u8, 117u8, 110u8, 99u8, 116u8, 105u8, 111u8, 110u8, 32u8, 116u8, 104u8, 97u8, 116u8, 32u8, 105u8, 115u8, 32u8, 114u8, 117u8, 110u8, 110u8, 105u8, 110u8, 103u8, 32u8, 111u8, 114u8, 32u8, 102u8, 105u8, 110u8, 97u8, 108u8, 105u8, 122u8, 101u8, 100u8]
}

/// `native function returned an invalid result count`
pub open spec fn text_results() -> Seq<u8> {
    seq![110u8, 97u8, 116u8, 105u8, 118u8, 101u8, 32u8, 102u8, 117u8, 110u8, 99u8, 116u8, 105u8, 111u8, 110u8, 32u8, 114u8, 101u8, 116u8, 117u8, 114u8, 110u8, 101u8, 100u8, 32u8, 97u8, 110u8, 32u8, 105u8, 110u8, 118u8, 97u8, 108u8, 105u8, 100u8, 32u8, 114u8, 101u8, 115u8, 117u8, 108u8, 116u8, 32u8, 99u8, 111u8, 117u8, 110u8, 116u8]
}

/// `stack overflow`
pub open spec fn text_overflow() -> Seq<u8> {
    seq![115u8, 116u8, 97u8, 99u8, 107u8, 32u8, 111u8, 118u8, 101u8, 114u8, 102u8, 108u8, 111u8, 119u8]
}

/// `native calls nested too deep`
pub open spec fn text_depth() -> Seq<u8> {
    seq![110u8, 97u8, 116u8, 105u8, 118u8, 101u8, 32u8, 99u8, 97u8, 108u8, 108u8, 115u8, 32u8, 110u8, 101u8, 115u8, 116u8, 101u8, 100u8, 32u8, 116u8, 111u8, 111u8, 32u8, 100u8, 101u8, 101u8, 112u8]
}

/// The text of the error that a raise becomes.
pub open spec fn raise_text(e: Raise) -> Seq<u8> {
    match e {
        Raise::BadArgument(a) => arg_error_text(a),
        Raise::ArgsNotMatch => text_args(),
        Raise::Argument { index, message } => text_bad() + signed_decimal(index as int) + text_open() + message@ + text_close(),
        Raise::Message(m) => vstd::utf8::encode_utf8(m@),
    }
}

/// `bad argument #<index> (<expected> expected, got <actual>)`.
pub open spec fn arg_error_text(a: ArgError) -> Seq<u8> {
    text_bad() + signed_decimal(a.index as int) + text_open() + typename(a.expected) + text_mid()
        + typename(a.actual) + text_close()
}

/// `attempt to call a <type> value`.
pub open spec fn call_error_text(t: Type) -> Seq<u8> {
    text_call() + typename(t) + text_value()
}

fn text_bad_bytes() -> (r: Vec<u8>)
    ensures
        r@ == text_bad(),
{
    let r = vec![98u8, 97u8, 100u8, 32u8, 97u8, 114u8, 103u8, 117u8, 109u8, 101u8, 110u8, 116u8, 32u8, 35u8];
    proof { assert(r@ =~= text_bad()); }
    r
}

fn text_open_bytes() -> (r: Vec<u8>)
    ensures
        r@ == text_open(),
{
    let r = vec![32u8, 40u8];
    proof { assert(r@ =~= text_open()); }
    r
}

fn text_mid_bytes() -> (r: Vec<u8>)
    ensures
        r@ == text_mid(),
{
    let r = vec![32u8, 101u8, 120u8, 112u8, 101u8, 99u8, 116u8, 101u8, 100u8, 44u8, 32u8, 103u8, 111u8, 116u8, 32u8];
    proof { assert(r@ =~= text_mid()); }
    r
}

fn text_close_bytes() -> (r: Vec<u8>)
    ensures
        r@ == text_close(),
{
    let r = vec![41u8];
    proof { assert(r@ =~= text_close()); }
    r
}

fn text_call_bytes() -> (r: Vec<u8>)
    ensures
        r@ == text_call(),
{
    let r = vec![97u8, 116u8, 116u8, 101u8, 109u8, 112u8, 116u8, 32u8, 116u8, 111u8, 32u8, 99u8, 97u8, 108u8, 108u8, 32u8, 97u8, 32u8];
    proof { assert(r@ =~= text_call()); }
    r
}

fn text_value_bytes() -> (r: Vec<u8>)
    ensures
        r@ == text_value(),
{
    let r = vec![32u8, 118u8, 97u8, 108u8, 117u8, 101u8];
    proof { assert(r@ =~= text_value()); }
    r
}

fn text_args_bytes() -> (r: Vec<u8>)
    ensures
        r@ == text_args(),
{
    let r = vec![97u8, 114u8, 103u8, 115u8, 32u8, 110u8, 111u8, 116u8, 32u8, 109u8, 97u8, 116u8, 99u8, 104u8];
    proof { assert(r@ =~= text_args()); }
    r
}

fn text_unavailable_bytes() -> (r: Vec<u8>)
    ensures
        r@ == text_unavailable(),
{
    let r = vec![97u8, 116u8, 116u8, 101u8, 109u8, 112u8, 116u8, 32u8, 116u8, 111u8, 32u8, 99u8, 97u8, 108u8, 108u8, 32u8, 97u8, 32u8, 102u8, 117u8, 110u8, 99u8, 116u8, 105u8, 111u8, 110u8, 32u8, 116u8, 104u8, 97u8, 116u8, 32u8, 105u8, 115u8, 32u8, 114u8, 117u8, 110u8, 110u8, 105u8, 110u8, 103u8, 32u8, 111u8, 114u8, 32u8, 102u8, 105u8, 110u8, 97u8, 108u8, 105u8, 122u8, 101u8, 100u8];
    proof { assert(r@ =~= text_unavailable()); }
    r
}

fn text_results_bytes() -> (r: Vec<u8>)
    ensures
        r@ == text_results(),
{
    let r = vec![110u8, 97u8, 116u8, 105u8, 118u8, 101u8, 32u8, 102u8, 117u8, 110u8, 99u8, 116u8, 105u8, 111u8, 110u8, 32u8, 114u8, 101u8, 116u8, 117u8, 114u8, 110u8, 101u8, 100u8, 32u8, 97u8, 110u8, 32u8, 105u8, 110u8, 118u8, 97u8, 108u8, 105u8, 100u8, 32u8, 114u8, 101u8, 115u8, 117u8, 108u8, 116u8, 32u8, 99u8, 111u8, 117u8, 110u8, 116u8];
    proof { assert(r@ =~= text_results()); }
    r
}

fn text_overflow_bytes() -> (r: Vec<u8>)
    ensures
        r@ == text_overflow(),
{
    let r = vec![115u8, 116u8, 97u8, 99u8, 107u8, 32u8, 111u8, 118u8, 101u8, 114u8, 102u8, 108u8, 111u8, 119u8];
    proof { assert(r@ =~= text_overflow()); }
    r
}

fn text_depth_bytes() -> (r: Vec<u8>)
    ensures
        r@ == text_depth(),
{
    let r = vec![110u8, 97u8, 116u8, 105u8, 118u8, 101u8, 32u8, 99u8, 97u8, 108u8, 108u8, 115u8, 32u8, 110u8, 101u8, 115u8, 116u8, 101u8, 100u8, 32u8, 116u8, 111u8, 111u8, 32u8, 100u8, 101u8, 101u8, 112u8];
    proof { assert(r@ =~= text_depth()); }
    r
}

fn push_all(out: &mut Vec<u8>, t: &[u8])
    ensures
        final(out)@ == old(out)@ + t@,
{
    let mut i: usize = 0;
    while i < t.len()
        invariant
            0 <= i <= t@.len(),
            out@ == old(out)@ + t@.subrange(0, i as int),
        decreases t@.len() - i,
    {
        out.push(t[i]);
        proof { assert(t@.subrange(0, i + 1) =~= t@.subrange(0, i as int).push(t@[i as int])); }
        i = i + 1;
    }
    proof { assert(t@.subrange(0, t@.len() as int) =~= t@); }
}

fn push_decimal(out: &mut Vec<u8>, n: u32)
    ensures
        final(out)@ == old(out)@ + decimal(n as nat),
    decreases n,
{
    if n >= 10 {
        push_decimal(out, n / 10);
    }
    let d: u8 = (n % 10) as u8;
    out.push(48 + d);
    proof {
        if n < 10 {
            assert(decimal(n as nat) =~= seq![(48 + n) as u8]);
        } else {
            assert(decimal(n as nat) == decimal((n / 10) as nat).push((48 + n % 10) as u8));
        }
        assert(final(out)@ =~= old(out)@ + decimal(n as nat));
    }
}

fn push_signed(out: &mut Vec<u8>, i: i32)
    ensures
        final(out)@ == old(out)@ + signed_decimal(i as int),
{
    if i < 0 {
        out.push(45u8);
        let m: u32 = (-(i as i64)) as u32;
        push_decimal(out, m);
        proof { assert(final(out)@ =~= old(out)@ + signed_decimal(i as int)); }
    } else {
        push_decimal(out, i as u32);
    }
}

/// The text of an argument error.
pub fn arg_error_message(a: &ArgError) -> (r: Vec<u8>)
    ensures
        r@ == arg_error_text(*a),
{
    let mut r: Vec<u8> = Vec::new();
    push_all(&mut r, text_bad_bytes().as_slice());
    push_signed(&mut r, a.index);
    push_all(&mut r, text_open_bytes().as_slice());
    let e = typename_bytes(a.expected);
    push_all(&mut r, e.as_slice());
    push_all(&mut r, text_mid_bytes().as_slice());
    let g = typename_bytes(a.actual);
    push_all(&mut r, g.as_slice());
    push_all(&mut r, text_close_bytes().as_slice());
    proof { assert(r@ =~= arg_error_text(*a)); }
    r
}

/// The text of the error that a raise becomes.
pub fn raise_message(e: &Raise) -> (r: Vec<u8>)
    ensures
        r@ == raise_text(*e),
{
    match e {
        Raise::BadArgument(a) => arg_error_message(a),
        Raise::ArgsNotMatch => {
            let mut r: Vec<u8> = Vec::new();
            push_all(&mut r, text_args_bytes().as_slice());
            proof { assert(r@ =~= text_args()); }
            r
        },
        Raise::Argument { index, message } => {
            let mut r: Vec<u8> = Vec::new();
            push_all(&mut r, text_bad_bytes().as_slice());
            push_signed(&mut r, *index);
            push_all(&mut r, text_open_bytes().as_slice());
            push_all(&mut r, message.as_slice());
            push_all(&mut r, text_close_bytes().as_slice());
            proof { assert(r@ =~= raise_text(*e)); }
            r
        },
        Raise::Message(m) => {
            let mut r: Vec<u8> = Vec::new();
            push_all(&mut r, m.as_str().as_bytes());
            proof { assert(r@ =~= raise_text(*e)); }
            r
        },
    }
}

/// The text of the error for calling a value of type `t`.
pub fn call_error_message(t: Type) -> (r: Vec<u8>)
    ensures
        r@ == call_error_text(t),
{
    let mut r: Vec<u8> = Vec::new();
    push_all(&mut r, text_call_bytes().as_slice());
    let n = typename_bytes(t);
    push_all(&mut r, n.as_slice());
    push_all(&mut r, text_value_bytes().as_slice());
    proof { assert(r@ =~= call_error_text(t)); }
    r
}

/// The failures of a call that the VM itself reports.
pub enum CallFailure {
    /// The function's closure is running already or has been finalized.
    Unavailable,
    /// The function returned more results than it pushed, or fewer than none.
    BadResultCount,
    /// The results would not fit on the stack.
    StackOverflow,
    /// Native calls are nested too deeply.
    TooDeep,
}

/// The text of a failure that the VM reports.
pub open spec fn failure_text(f: CallFailure) -> Seq<u8> {
    match f {
        CallFailure::Unavailable => text_unavailable(),
        CallFailure::BadResultCount => text_results(),
        CallFailure::StackOverflow => text_overflow(),
        CallFailure::TooDeep => text_depth(),
    }
}

/// The text of a failure that the VM reports.
pub fn failure_message(f: CallFailure) -> (r: Vec<u8>)
    ensures
        r@ == failure_text(f),
{
    let mut r: Vec<u8> = Vec::new();
    match f {
        CallFailure::Unavailable => push_all(&mut r, text_unavailable_bytes().as_slice()),
        CallFailure::BadResultCount => push_all(&mut r, text_results_bytes().as_slice()),
        CallFailure::StackOverflow => push_all(&mut r, text_overflow_bytes().as_slice()),
        CallFailure::TooDeep => push_all(&mut r, text_depth_bytes().as_slice()),
    }
    proof { assert(r@ =~= failure_text(f)); }
    r
}

} // verus!
