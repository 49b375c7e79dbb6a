use vstd::prelude::*;
use vstd::string::StringSliceAdditionalSpecFns;
use crate::value::{Index, Type, Datum, type_of_datum};
use crate::state::{State, first_key, bytes_eq};
use crate::error::{ArgError, Raise, typename, typename_bytes};

verus! {

/// The byte strings of a list of names.
pub open spec fn name_bytes(lst: Seq<&str>) -> Seq<Seq<u8>> {
    lst.map_values(|s: &str| s.spec_bytes())
}

/// `s` with every occurrence of `p`, taken from left to right without
/// overlaps, replaced by `r`.
pub open spec fn replace_all(s: Seq<u8>, p: Seq<u8>, r: Seq<u8>) -> Seq<u8>
    decreases s.len(),
{
    if p.len() == 0 || s.len() == 0 {
        s
    } else if p.len() <= s.len() && s.subrange(0, p.len() as int) == p {
        r + replace_all(s.subrange(p.len() as int, s.len() as int), p, r)
    } else {
        seq![s[0]] + replace_all(s.subrange(1, s.len() as int), p, r)
    }
}

fn matches_at(s: &[u8], i: usize, p: &[u8]) -> (r: bool)
    requires
        i <= s@.len(),
    ensures
        r == (p@.len() <= s@.len() - i && s@.subrange(i as int, i + p@.len()) == p@),
{
    if p.len() > s.len() - i {
        return false;
    }
    let n = s.len();
    let mut j: usize = 0;
    while j < p.len()
        invariant
            n == s@.len(),
            i <= s@.len(),
            p@.len() <= s@.len() - i,
            0 <= j <= p@.len(),
            s@.subrange(i as int, i + j) == p@.subrange(0, j as int),
        decreases p@.len() - j,
    {
        if s[i + j] != p[j] {
            proof { assert(s@.subrange(i as int, i + p@.len())[j as int] != p@[j as int]); }
            return false;
        }
        proof {
            assert(s@.subrange(i as int, i + j + 1) =~= s@.subrange(i as int, i + j).push(s@[i + j]));
            assert(p@.subrange(0, j + 1) =~= p@.subrange(0, j as int).push(p@[j as int]));
        }
        j = j + 1;
    }
    proof { assert(p@.subrange(0, p@.len() as int) =~= p@); }
    true
}

fn append(out: &mut Vec<u8>, t: &[u8])
    ensures
        final(out)@ == old(out)@ + t@,
{
    let mut i: usize = 0;
    while i < t.len()
        invariant
            0 <= i <= t@.len(),
            out@ == old(out)@ + t@.subrange(0, i as int),
        decreases t@.len() - i,
    {
        out.push(t[i]);
        proof { assert(t@.subrange(0, i + 1) =~= t@.subrange(0, i as int).push(t@[i as int])); }
        i = i + 1;
    }
    proof { assert(t@.subrange(0, t@.len() as int) =~= t@); }
}

/// `s` with every occurrence of `p` replaced by `r`.
pub fn replace_bytes(s: &[u8], p: &[u8], r: &[u8]) -> (out: Vec<u8>)
    requires
        p@.len() > 0,
    ensures
        out@ == replace_all(s@, p@, r@),
{
    let mut out: Vec<u8> = Vec::new();
    let mut i: usize = 0;
    proof {
        assert(s@.subrange(0, s@.len() as int) =~= s@);
        assert(out@ + replace_all(s@, p@, r@) =~= replace_all(s@, p@, r@));
    }
    while i < s.len()
        invariant
            0 <= i <= s@.len(),
            p@.len() > 0,
            out@ + replace_all(s@.subrange(i as int, s@.len() as int), p@, r@) == replace_all(s@, p@, r@),
        decreases s@.len() - i,
    {
        let ghost rest = s@.subrange(i as int, s@.len() as int);
        let ghost before = out@;
        if matches_at(s, i, p) {
            append(&mut out, r);
            proof {
                assert(rest.subrange(0, p@.len() as int) =~= s@.subrange(i as int, i + p@.len()));
                assert(rest.subrange(p@.len() as int, rest.len() as int) =~= s@.subrange(i + p@.len(), s@.len() as int));
                assert((before + r@) + replace_all(s@.subrange(i + p@.len(), s@.len() as int), p@, r@)
                    =~= before + (r@ + replace_all(s@.subrange(i + p@.len(), s@.len() as int), p@, r@)));
            }
            i = i + p.len();
        } else {
            out.push(s[i]);
            proof {
                if p@.len() <= rest.len() {
                    assert(rest.subrange(0, p@.len() as int) =~= s@.subrange(i as int, i + p@.len()));
                }
                assert(rest.subrange(1, rest.len() as int) =~= s@.subrange(i + 1, s@.len() as int));
                assert(rest[0] == s@[i as int]);
                assert(before.push(s@[i as int]) + replace_all(s@.subrange(i + 1, s@.len() as int), p@, r@)
                    =~= before + (seq![s@[i as int]] + replace_all(s@.subrange(i + 1, s@.len() as int), p@, r@)));
            }
            i = i + 1;
        }
    }
    proof {
        assert(s@.subrange(s@.len() as int, s@.len() as int) =~= Seq::<u8>::empty());
        assert(out@ + Seq::<u8>::empty() =~= out@);
    }
    out
}

impl<H> State<H> {
    /// Pushes `s` with every occurrence of `p` replaced by `r`.
    pub fn gsub(&mut self, s: &str, p: &str, r: &str)
        requires
            old(self).wf(),
            old(self).room(1),
            p.spec_bytes().len() > 0,
        ensures
            final(self).wf(),
            final(self).pushed(old(self), Datum::Str(replace_all(s.spec_bytes(), p.spec_bytes(), r.spec_bytes()))),
    {
        let out = replace_bytes(s.as_bytes(), p.as_bytes(), r.as_bytes());
        self.push_bytes(out.as_slice());
    }

    /// The name of a type.
    pub fn typename_of(&self, tp: Type) -> (r: Vec<u8>)
        ensures
            r@ == typename(tp),
    {
        typename_bytes(tp)
    }

    /// The name of the type of the value at `n`.
    pub fn typename_at(&self, n: Index) -> (r: Vec<u8>)
        requires
            self.wf(),
        ensures
            r@ == typename(type_of_datum(self.at(n as int))),
    {
        typename_bytes(self.type_of(n))
    }

    /// Fails with an argument error unless the value at `arg` has type `t`.
    pub fn check_type(&self, arg: Index, t: Type) -> (r: Result<(), ArgError>)
        requires
            self.wf(),
        ensures
            r is Ok == (type_of_datum(self.at(arg as int)) == t),
            r matches Err(e) ==> e == (ArgError { index: arg, expected: t, actual: type_of_datum(self.at(arg as int)) }),
    {
        let actual = self.type_of(arg);
        if actual == t {
            Ok(())
        } else {
            Err(ArgError { index: arg, expected: t, actual })
        }
    }

    /// The integer argument at `arg`, or an argument error.
    pub fn check_integer(&self, arg: Index) -> (r: Result<i64, ArgError>)
        requires
            self.wf(),
        ensures
            match self.at(arg as int) {
                Datum::Int(i) => r == Ok::<i64, ArgError>(i),
                d => r == Err::<i64, ArgError>(ArgError { index: arg, expected: Type::Number, actual: type_of_datum(d) }),
            },
    {
        match self.to_integerx(arg) {
            Some(i) => Ok(i),
            None => Err(ArgError { index: arg, expected: Type::Number, actual: self.type_of(arg) }),
        }
    }

    /// The integer argument at `arg`, `def` if it is absent or nil, or an
    /// argument error.
    pub fn opt_integer(&self, arg: Index, def: i64) -> (r: Result<i64, ArgError>)
        requires
            self.wf(),
        ensures
            match self.at(arg as int) {
                Datum::Absent => r == Ok::<i64, ArgError>(def),
                Datum::Nil => r == Ok::<i64, ArgError>(def),
                Datum::Int(i) => r == Ok::<i64, ArgError>(i),
                d => r == Err::<i64, ArgError>(ArgError { index: arg, expected: Type::Number, actual: type_of_datum(d) }),
            },
    {
        if self.is_none_or_nil(arg) {
            Ok(def)
        } else {
            self.check_integer(arg)
        }
    }

    /// The string argument at `n`, or an argument error.
    pub fn check_string(&self, n: Index) -> (r: Result<&str, ArgError>)
        requires
            self.wf(),
        ensures
            match self.at(n as int) {
                Datum::Str(b) => if vstd::utf8::valid_utf8(b) {
                    r matches Ok(s) && s.spec_bytes() == b
                } else {
                    r == Err::<&str, ArgError>(ArgError { index: n, expected: Type::String, actual: Type::String })
                },
                d => r == Err::<&str, ArgError>(ArgError { index: n, expected: Type::String, actual: type_of_datum(d) }),
            },
    {
        match self.to_str(n) {
            Some(s) => Ok(s),
            None => Err(ArgError { index: n, expected: Type::String, actual: self.type_of(n) }),
        }
    }

    /// The string argument at `n`, `default` if it is absent or nil, or an
    /// argument error.
    pub fn opt_string<'a>(&'a self, n: Index, default: &'a str) -> (r: Result<&'a str, ArgError>)
        requires
            self.wf(),
        ensures
            (self.at(n as int) is Absent || self.at(n as int) is Nil) ==> r == Ok::<&str, ArgError>(default),
            !(self.at(n as int) is Absent || self.at(n as int) is Nil) ==> match self.at(n as int) {
                Datum::Str(b) => if vstd::utf8::valid_utf8(b) {
                    r matches Ok(s) && s.spec_bytes() == b
                } else {
                    r == Err::<&str, ArgError>(ArgError { index: n, expected: Type::String, actual: Type::String })
                },
                d => r == Err::<&str, ArgError>(ArgError { index: n, expected: Type::String, actual: type_of_datum(d) }),
            },
    {
        if self.is_none_or_nil(n) {
            Ok(default)
        } else {
            self.check_string(n)
        }
    }

    /// Fails with an argument error carrying `extramsg` unless `cond` holds.
    pub fn arg_check(&self, cond: bool, arg: Index, extramsg: &str) -> (r: Result<(), Raise>)
        ensures
            cond ==> r is Ok,
            !cond ==> (r matches Err(Raise::Argument { index, message }) && index == arg && message@ == extramsg.spec_bytes()),
    {
        if cond {
            Ok(())
        } else {
            Err(Raise::Argument { index: arg, message: vstd::slice::slice_to_vec(extramsg.as_bytes()) })
        }
    }

    /// The option name that `check_option` looks up: `def` for an absent
    /// or nil argument when `def` is given, else the argument's string.
    pub open spec fn option_name(&self, arg: Index, def: Option<&str>) -> Option<Seq<u8>> {
        match def {
            Some(d) if self.at(arg as int) is Absent || self.at(arg as int) is Nil => Some(d.spec_bytes()),
            _ => match self.at(arg as int) {
                Datum::Str(b) => if vstd::utf8::valid_utf8(b) { Some(b) } else { None },
                _ => None,
            },
        }
    }

    /// The position in `lst` of the first option equal to the option name
    /// (see `option_name`); an argument error when there is no name or no
    /// option of the list matches it.
    pub fn check_option(&self, arg: Index, def: Option<&str>, lst: &[&str]) -> (r: Result<usize, Raise>)
        requires
            self.wf(),
        ensures
            match self.option_name(arg, def) {
                None => r matches Err(Raise::BadArgument(e)) && e.index == arg && e.expected == Type::String,
                Some(n) => if first_key(name_bytes(lst@), n, 0) == -1 {
                    r matches Err(Raise::Argument { index, message }) && index == arg && message@ == invalid_option_text(n)
                } else {
                    r matches Ok(j) && j as int == first_key(name_bytes(lst@), n, 0)
                },
            },
    {
        let name: &str = match def {
            Some(d) => match self.opt_string(arg, d) {
                Ok(s) => s,
                Err(e) => { return Err(Raise::BadArgument(e)); },
            },
            None => match self.check_string(arg) {
                Ok(s) => s,
                Err(e) => { return Err(Raise::BadArgument(e)); },
            },
        };
        let key = name.as_bytes();
        assert(self.option_name(arg, def) == Some(key@));
        let ghost keys = name_bytes(lst@);
        let mut i: usize = 0;
        while i < lst.len()
            invariant
                0 <= i <= lst@.len(),
                keys == name_bytes(lst@),
                self.option_name(arg, def) == Some(key@),
                first_key(keys, key@, 0) == first_key(keys, key@, i as int),
            decreases lst@.len() - i,
        {
            if bytes_eq(lst[i].as_bytes(), key) {
                proof {
                    assert(keys[i as int] == key@);
                    assert(first_key(keys, key@, i as int) == i as int);
                    assert(first_key(name_bytes(lst@), key@, 0) == i as int);
                }
                return Ok(i);
            }
            proof { assert(keys[i as int] != key@); }
            i = i + 1;
        }
        Err(Raise::Argument { index: arg, message: invalid_option(key) })
    }
}

/// `invalid option '<name>'`.
pub open spec fn invalid_option_text(name: Seq<u8>) -> Seq<u8> {
    seq![105u8, 110u8, 118u8, 97u8, 108u8, 105u8, 100u8, 32u8, 111u8, 112u8, 116u8, 105u8, 111u8, 110u8, 32u8, 39u8]
        + name + seq![39u8]
}

fn invalid_option(name: &[u8]) -> (r: Vec<u8>)
    ensures
        r@ == invalid_option_text(name@),
{
    let mut r = vec![105u8, 110u8, 118u8, 97u8, 108u8, 105u8, 100u8, 32u8, 111u8, 112u8, 116u8, 105u8, 111u8, 110u8, 32u8, 39u8];
    let ghost head = r@;
    let mut i: usize = 0;
    while i < name.len()
        invariant
            0 <= i <= name@.len(),
            r@ == head + name@.subrange(0, i as int),
        decreases name@.len() - i,
    {
        r.push(name[i]);
        proof { assert(name@.subrange(0, i + 1) =~= name@.subrange(0, i as int).push(name@[i as int])); }
        i = i + 1;
    }
    r.push(39u8);
    proof {
        assert(name@.subrange(0, name@.len() as int) =~= name@);
        assert(r@ =~= invalid_option_text(name@));
    }
    r
}

} // verus!
