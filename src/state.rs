use vstd::prelude::*;
use vstd::string::StringSliceAdditionalSpecFns;
use crate::value::{Index, Type, Slot, Datum, Value, ThreadStatus, Reference, LUA_REFNIL, LUA_NOREF, type_of_datum, truthy};
use crate::text::from_utf8_checked;
use vstd::utf8::encode_utf8;
use crate::error::{Raise, CallFailure, raise_message, call_error_message, failure_message, failure_text, raise_text, call_error_text};

verus! {

/// Largest number of slots the stack of a state may hold.
pub const LUAI_MAXSTACK: usize = 1000000;

/// One table of the VM heap: string keys with their values, and an optional
/// behavior table.
struct TableData {
    keys: Vec<Vec<u8>>,
    vals: Vec<Slot>,
    meta: Option<usize>,
}

/// One opaque object of the VM heap: a host value owned by the VM.
struct Object<H> {
    data: Option<H>,
    meta: Option<usize>,
    live: bool,
}

/// A VM instance: its value stack, its heap of tables and objects, and the
/// cache of behavior tables keyed by type token.
pub struct State<H> {
    stack: Vec<Slot>,
    // Stack position of slot 1 of the current frame.
    base: usize,
    tables: Vec<TableData>,
    objects: Vec<Object<H>>,
    // Behavior table per type token; the first entry for a token counts.
    cache: Vec<(u64, usize)>,
    // Native calls now running; collection waits while there are any.
    depth: usize,
    // Values kept under references (reference `r` is `refs[r - 1]`), and
    // positions freed for reuse.
    refs: Vec<Slot>,
    free: Vec<usize>,
    next_key: u64,
}

/// The slot that `idx` names in a stack of `len` slots whose current frame
/// starts at `base`.
pub open spec fn resolve(base: int, len: int, idx: int) -> Option<int> {
    if idx > 0 {
        if base + idx - 1 < len { Some(base + idx - 1) } else { None }
    } else if idx < 0 {
        if len + idx >= base { Some(len + idx) } else { None }
    } else {
        None
    }
}

/// Nil for an absent slot, the datum otherwise.
pub open spec fn or_nil(d: Datum) -> Datum {
    match d {
        Datum::Absent => Datum::Nil,
        _ => d,
    }
}


/// Position of the first of `keys` from `from` on that equals `key`, or -1.
pub open spec fn first_key<K>(keys: Seq<K>, key: K, from: int) -> int
    decreases keys.len() - from,
{
    if from < 0 || from >= keys.len() {
        -1
    } else if keys[from] == key {
        from
    } else {
        first_key(keys, key, from + 1)
    }
}

proof fn lemma_first_key_range<K>(keys: Seq<K>, key: K, from: int)
    ensures
        first_key(keys, key, from) == -1 || (from <= first_key(keys, key, from) < keys.len()
            && keys[first_key(keys, key, from)] == key),
    decreases keys.len() - from,
{
    if 0 <= from < keys.len() && keys[from] != key {
        lemma_first_key_range(keys, key, from + 1);
    }
}

/// Whether two byte strings are equal.
pub fn bytes_eq(a: &[u8], b: &[u8]) -> (r: bool)
    ensures
        r == (a@ == b@),
{
    if a.len() != b.len() {
        return false;
    }
    let mut i: usize = 0;
    while i < a.len()
        invariant
            a@.len() == b@.len(),
            0 <= i <= a@.len(),
            a@.subrange(0, i as int) == b@.subrange(0, i as int),
        decreases a@.len() - i,
    {
        if a[i] != b[i] {
            proof { assert(a@[i as int] != b@[i as int]); }
            return false;
        }
        proof {
            assert(a@.subrange(0, i + 1) =~= a@.subrange(0, i as int).push(a@[i as int]));
            assert(b@.subrange(0, i + 1) =~= b@.subrange(0, i as int).push(b@[i as int]));
        }
        i = i + 1;
    }
    proof {
        assert(a@ =~= a@.subrange(0, a@.len() as int));
        assert(b@ =~= b@.subrange(0, b@.len() as int));
    }
    true
}


/// Handle of the table of globals, which every state creates first.
pub const LUA_RIDX_GLOBALS: usize = 0;

/// Most native calls that may be nested inside one another.
pub const LUAI_MAXCCALLS: usize = 200;

/// Asks `pcall` for all the results the callee produces.
pub const LUA_MULTRET: Index = -1;

/// A host value owned by the VM: the closure behind a native function, or
/// the payload of an opaque object.
pub trait Host: Sized {
    /// Runs this value as a native function. Its arguments are slots
    /// `1..=top` of the state's current frame; it pushes its results and
    /// returns how many it pushed, or gives up with a raise.
    fn invoke(&mut self, state: &mut State<Self>) -> Result<Index, Raise>
        requires
            old(state).wf(),
            old(state).base() == 0,
            old(state).depth() >= 1,
    ;
}

/// The behavior of one host type: a name, whether the table serves as its
/// own `__index`, and the methods it offers.
pub struct MetatableDecl<H> {
    pub name: String,
    pub index_self: bool,
    pub methods: Vec<(String, H)>,
}

/// Builds the declaration of a host type's behavior table; a state calls it
/// once per type, on the first object of that type.
pub trait InitMetatable<H> {
    fn init(&self) -> MetatableDecl<H>;
}

/// A host type's behavior: the token that identifies the type, minted once
/// when the type is registered, and the initializer of its table.
pub struct Metatable<I> {
    pub key: u64,
    pub init: I,
}

/// Whether `d` is a handle of object `o`.
pub open spec fn refers(d: Datum, o: nat) -> bool {
    d == Datum::Function(o) || d == Datum::Userdata(o)
}

/// Whether some datum of `s` is a handle of object `o`.
pub open spec fn refs_in(s: Seq<Datum>, o: nat) -> bool {
    exists|i: int| 0 <= i < s.len() && #[trigger] refers(s[i], o)
}

/// The bytes of `__name`.
pub open spec fn name_key_spec() -> Seq<u8> {
    seq![95u8, 95u8, 110u8, 97u8, 109u8, 101u8]
}

fn name_key() -> (r: Vec<u8>)
    ensures
        r@ == name_key_spec(),
{
    let r = vec![95u8, 95u8, 110u8, 97u8, 109u8, 101u8];
    proof { assert(r@ =~= name_key_spec()); }
    r
}

/// The bytes of `__index`.
pub open spec fn index_key_spec() -> Seq<u8> {
    seq![95u8, 95u8, 105u8, 110u8, 100u8, 101u8, 120u8]
}

fn index_key() -> (r: Vec<u8>)
    ensures
        r@ == index_key_spec(),
{
    let r = vec![95u8, 95u8, 105u8, 110u8, 100u8, 101u8, 120u8];
    proof { assert(r@ =~= index_key_spec()); }
    r
}


proof fn lemma_refs_in_push(s: Seq<Datum>, d: Datum, o: nat)
    ensures
        refs_in(s.push(d), o) == (refs_in(s, o) || refers(d, o)),
{
    if refs_in(s, o) {
        let i = choose|i: int| 0 <= i < s.len() && #[trigger] refers(s[i], o);
        assert(s.push(d)[i] == s[i]);
    }
    if refers(d, o) {
        assert(s.push(d)[s.len() as int] == d);
    }
    if refs_in(s.push(d), o) {
        let i = choose|i: int| 0 <= i < s.push(d).len() && #[trigger] refers(s.push(d)[i], o);
        if i < s.len() {
            assert(s[i] == s.push(d)[i]);
        }
    }
}

/// Sets the mark of every object that a slot of `slots` refers to.
fn mark_slots(marks: &mut Vec<bool>, slots: &Vec<Slot>)
    ensures
        final(marks)@.len() == old(marks)@.len(),
        forall|o: int| 0 <= o < old(marks)@.len() ==> #[trigger] final(marks)@[o]
            == (old(marks)@[o] || refs_in(slots@.map_values(|s: Slot| s.view()), o as nat)),
{
    let ghost all = slots@.map_values(|s: Slot| s.view());
    let mut i: usize = 0;
    while i < slots.len()
        invariant
            0 <= i <= slots@.len(),
            all == slots@.map_values(|s: Slot| s.view()),
            marks@.len() == old(marks)@.len(),
            forall|o: int| 0 <= o < old(marks)@.len() ==> #[trigger] marks@[o]
                == (old(marks)@[o] || refs_in(all.subrange(0, i as int), o as nat)),
        decreases slots@.len() - i,
    {
        let target: Option<usize> = match &slots[i] {
            Slot::Function(o) => Some(*o),
            Slot::Userdata(o) => Some(*o),
            _ => None,
        };
        match target {
            Some(o) => if o < marks.len() { marks.set(o, true); },
            None => {},
        }
        proof {
            assert(all.subrange(0, i + 1) =~= all.subrange(0, i as int).push(all[i as int]));
            assert forall|o: int| 0 <= o < old(marks)@.len() implies #[trigger] marks@[o]
                == (old(marks)@[o] || refs_in(all.subrange(0, i + 1), o as nat)) by {
                lemma_refs_in_push(all.subrange(0, i as int), all[i as int], o as nat);
            }
        }
        i = i + 1;
    }
    proof { assert(all.subrange(0, slots@.len() as int) =~= all); }
}

impl TableData {
    pub closed spec fn vals_view(&self) -> Seq<Datum> {
        self.vals@.map_values(|s: Slot| s.view())
    }

    pub closed spec fn key_seq(&self) -> Seq<Seq<u8>> {
        self.keys@.map_values(|k: Vec<u8>| k@)
    }

    /// The value stored under `key`, nil if none is.
    pub closed spec fn get(&self, key: Seq<u8>) -> Datum {
        let j = first_key(self.key_seq(), key, 0);
        if 0 <= j < self.vals@.len() {
            self.vals@[j].view()
        } else {
            Datum::Nil
        }
    }

    pub closed spec fn meta(&self) -> Option<nat> {
        match self.meta {
            Some(m) => Some(m as nat),
            None => None,
        }
    }

    fn empty() -> (r: TableData)
        ensures
            forall|k: Seq<u8>| #[trigger] r.get(k) == Datum::Nil,
            r.meta() is None,
    {
        TableData { keys: Vec::new(), vals: Vec::new(), meta: None }
    }

    fn find(&self, key: &[u8]) -> (r: Option<usize>)
        ensures
            match r {
                Some(j) => j < self.vals@.len() && first_key(self.key_seq(), key@, 0) == j,
                None => !(0 <= first_key(self.key_seq(), key@, 0) < self.vals@.len()),
            },
    {
        let mut i: usize = 0;
        while i < self.keys.len()
            invariant
                0 <= i <= self.keys@.len(),
                first_key(self.key_seq(), key@, 0) == first_key(self.key_seq(), key@, i as int),
            decreases self.keys@.len() - i,
        {
            if bytes_eq(self.keys[i].as_slice(), key) {
                proof { assert(self.key_seq()[i as int] == key@); }
                if i < self.vals.len() {
                    return Some(i);
                } else {
                    return None;
                }
            }
            i = i + 1;
        }
        None
    }

    fn get_slot(&self, key: &[u8]) -> (r: Slot)
        ensures
            r.view() == self.get(key@),
    {
        match self.find(key) {
            Some(j) => self.vals[j].duplicate(),
            None => Slot::Nil,
        }
    }

    fn set(&mut self, key: &[u8], v: Slot)
        ensures
            forall|k: Seq<u8>| #[trigger] final(self).get(k) == if k == key@ { v.view() } else { old(self).get(k) },
            final(self).meta() == old(self).meta(),
    {
        let ghost vv = v.view();
        match self.find(key) {
            Some(j) => {
                self.vals.set(j, v);
                proof {
                    assert(self.key_seq() == old(self).key_seq());
                    assert forall|k: Seq<u8>| #[trigger] self.get(k) == if k == key@ { vv } else { old(self).get(k) } by {
                        lemma_first_key_range(self.key_seq(), k, 0);
                        lemma_first_key_range(self.key_seq(), key@, 0);
                        let jk = first_key(self.key_seq(), k, 0);
                        if k != key@ {
                            assert(jk != j as int);
                        }
                    }
                }
            },
            None => {
                let ghost oldkeys = self.key_seq();
                let ghost oldvals = self.vals@;
                proof { lemma_first_key_range(oldkeys, key@, 0); }
                // Keys and values are cut to a common length before the new pair goes in.
                let n: usize = if self.keys.len() < self.vals.len() { self.keys.len() } else { self.vals.len() };
                self.keys.truncate(n);
                self.vals.truncate(n);
                let ghost cut = self.key_seq();
                proof {
                    assert(cut =~= oldkeys.subrange(0, n as int));
                }
                let kv = vstd::slice::slice_to_vec(key);
                self.keys.push(kv);
                self.vals.push(v);
                proof {
                    assert(self.key_seq() =~= cut.push(key@));
                    assert forall|k: Seq<u8>| #[trigger] self.get(k) == if k == key@ { vv } else { old(self).get(k) } by {
                        lemma_first_key_prefix(oldkeys, cut, k, 0);
                        lemma_first_key_range(cut, k, 0);
                        lemma_first_key_range(oldkeys, k, 0);
                        lemma_first_key_push(cut, key@, k, 0);
                        lemma_first_key_prefix(oldkeys, cut, key@, 0);
                        let jc = first_key(cut, k, 0);
                        if jc != -1 {
                            assert(self.vals@[jc] == oldvals[jc]);
                        }
                    }
                }
            },
        }
    }
}

proof fn lemma_first_key_prefix<K>(keys: Seq<K>, cut: Seq<K>, key: K, from: int)
    requires
        cut.len() <= keys.len(),
        cut == keys.subrange(0, cut.len() as int),
        0 <= from,
    ensures
        first_key(cut, key, from) == (if 0 <= first_key(keys, key, from) < cut.len() { first_key(keys, key, from) } else { -1 }),
    decreases keys.len() - from,
{
    lemma_first_key_range(keys, key, from);
    if from < cut.len() && keys[from] != key {
        lemma_first_key_prefix(keys, cut, key, from + 1);
    } else if from >= cut.len() && from < keys.len() {
        lemma_first_key_range(keys, key, from);
    }
}

proof fn lemma_first_key_push<K>(keys: Seq<K>, last: K, key: K, from: int)
    requires
        0 <= from <= keys.len(),
    ensures
        first_key(keys.push(last), key, from) == (if first_key(keys, key, from) != -1 { first_key(keys, key, from) } else if key == last { keys.len() as int } else { -1 }),
    decreases keys.len() - from,
{
    if from < keys.len() {
        assert(keys.push(last)[from] == keys[from]);
        if keys[from] != key {
            lemma_first_key_push(keys, last, key, from + 1);
        }
    } else {
        assert(keys.push(last)[from] == last);
        if key != last {
            assert(first_key(keys.push(last), key, from + 1) == -1);
        }
    }
}

impl<H> State<H> {
    /// The whole stack, from the bottom.
    pub closed spec fn view(&self) -> Seq<Datum> {
        self.stack@.map_values(|s: Slot| s.view())
    }

    /// Position in the stack of the first slot of the current frame.
    pub closed spec fn base(&self) -> int {
        self.base as int
    }

    /// The tables are as in `other`.
    pub closed spec fn same_tables(&self, other: &Self) -> bool {
        self.tables == other.tables
    }

    /// The objects, the behavior cache, the call depth, the references and
    /// the type-token counter are as in `other`.
    pub closed spec fn same_objects(&self, other: &Self) -> bool {
        &&& self.objects == other.objects
        &&& self.cache == other.cache
        &&& self.depth == other.depth
        &&& self.refs == other.refs
        &&& self.free == other.free
        &&& self.next_key == other.next_key
    }

    /// Everything but the stack is as in `other`.
    pub open spec fn same_heap(&self, other: &Self) -> bool {
        self.same_tables(other) && self.same_objects(other)
    }

    pub closed spec fn n_tables(&self) -> nat {
        self.tables@.len()
    }

    /// The value that table `t` holds under `key`, without behavior tables.
    pub closed spec fn raw_field(&self, t: nat, key: Seq<u8>) -> Datum {
        if t < self.tables@.len() { self.tables@[t as int].get(key) } else { Datum::Nil }
    }

    pub closed spec fn table_meta(&self, t: nat) -> Option<nat> {
        if t < self.tables@.len() { self.tables@[t as int].meta() } else { None }
    }

    pub closed spec fn n_objects(&self) -> nat {
        self.objects@.len()
    }

    pub closed spec fn object_meta(&self, o: nat) -> Option<nat> {
        if o < self.objects@.len() {
            match self.objects@[o as int].meta {
                Some(m) => Some(m as nat),
                None => None,
            }
        } else {
            None
        }
    }

    /// Object `o` exists and has not been finalized.
    pub closed spec fn live(&self, o: nat) -> bool {
        o < self.objects@.len() && self.objects@[o as int].live
    }

    /// The host value that object `o` holds.
    pub closed spec fn payload(&self, o: nat) -> Option<H> {
        if o < self.objects@.len() { self.objects@[o as int].data } else { None }
    }

    /// The behavior table of a datum.
    pub open spec fn meta_of(&self, d: Datum) -> Option<nat> {
        match d {
            Datum::Table(t) => self.table_meta(t),
            Datum::Userdata(o) => self.object_meta(o),
            _ => None,
        }
    }

    /// `key` looked up through the `__index` table of `d`'s behavior table.
    pub open spec fn inherited(&self, d: Datum, key: Seq<u8>) -> Datum {
        match self.meta_of(d) {
            Some(m) => match self.raw_field(m, index_key_spec()) {
                Datum::Table(x) => self.raw_field(x, key),
                _ => Datum::Nil,
            },
            None => Datum::Nil,
        }
    }

    /// `d[key]`: a table's own field, else what its behavior table offers.
    pub open spec fn field(&self, d: Datum, key: Seq<u8>) -> Datum {
        match d {
            Datum::Table(t) => if self.raw_field(t, key) is Nil { self.inherited(d, key) } else { self.raw_field(t, key) },
            Datum::Userdata(_) => self.inherited(d, key),
            _ => Datum::Nil,
        }
    }

    pub open spec fn wf(&self) -> bool {
        0 <= self.base() <= self.view().len() <= LUAI_MAXSTACK
    }

    /// Number of slots in the current frame.
    pub open spec fn top(&self) -> int {
        self.view().len() - self.base()
    }

    /// The slots of the current frame.
    pub open spec fn frame(&self) -> Seq<Datum> {
        self.view().subrange(self.base(), self.view().len() as int)
    }

    pub open spec fn pos(&self, idx: int) -> Option<int> {
        resolve(self.base(), self.view().len() as int, idx)
    }

    /// What index `idx` names; `Absent` outside the current frame.
    pub open spec fn at(&self, idx: int) -> Datum {
        match self.pos(idx) {
            Some(p) => self.view()[p],
            None => Datum::Absent,
        }
    }

    /// The `n` data from index `begin` on.
    pub open spec fn run(&self, begin: int, n: nat) -> Seq<Datum> {
        Seq::new(n, |i: int| self.at(begin + i))
    }

    /// Room for `n` more slots.
    pub open spec fn room(&self, n: int) -> bool {
        self.view().len() + n <= LUAI_MAXSTACK
    }

    /// `self` is `old` with `d` pushed on top.
    pub open spec fn pushed(&self, old: &Self, d: Datum) -> bool {
        &&& self.view() == old.view().push(d)
        &&& self.base() == old.base()
        &&& self.same_heap(old)
    }

    proof fn lemma_view_len(&self)
        ensures
            self.view().len() == self.stack@.len(),
            forall|i: int| 0 <= i < self.stack@.len() ==> #[trigger] self.view()[i] == self.stack@[i].view(),
    {
    }

    /// A state has the same heap as itself.
    pub proof fn lemma_same_heap_refl(&self)
        ensures
            self.same_heap(self),
    {
    }

    /// Having the same heap carries over from state to state.
    pub proof fn lemma_same_heap_trans(a: &Self, b: &Self, c: &Self)
        requires
            a.same_heap(b),
            b.same_heap(c),
        ensures
            a.same_heap(c),
    {
    }

    /// States with the same heap agree on every object, table and cached
    /// behavior table, and on the call depth.
    pub proof fn lemma_same_heap_facts(a: &Self, b: &Self)
        requires
            a.same_heap(b),
        ensures
            a.depth() == b.depth(),
            a.n_objects() == b.n_objects(),
            a.n_tables() == b.n_tables(),
            forall|o: nat| #[trigger] a.payload(o) == b.payload(o),
            forall|o: nat| #[trigger] a.live(o) == b.live(o),
            forall|o: nat| #[trigger] a.object_meta(o) == b.object_meta(o),
            forall|t: nat, k: Seq<u8>| #[trigger] a.raw_field(t, k) == b.raw_field(t, k),
            forall|k: u64| #[trigger] a.cached(k) == b.cached(k),
    {
    }

    /// A state with an empty stack and an empty heap.
    pub fn new() -> (r: State<H>)
        ensures
            r.wf(),
            r.view() == Seq::<Datum>::empty(),
            r.base() == 0,
            r.n_tables() == 1,
            forall|k: Seq<u8>| #[trigger] r.raw_field(LUA_RIDX_GLOBALS as nat, k) == Datum::Nil,
            r.table_meta(LUA_RIDX_GLOBALS as nat) is None,
            r.n_objects() == 0,
            forall|k: u64| #[trigger] r.cached(k) is None,
            r.depth() == 0,
            r.next_type_key() == 1,
    {
        let mut tables: Vec<TableData> = Vec::new();
        tables.push(TableData::empty());
        let r = State { stack: Vec::new(), base: 0, tables, objects: Vec::new(), cache: Vec::new(), depth: 0, refs: Vec::new(), free: Vec::new(), next_key: 1 };
        proof { assert(r.view() =~= Seq::<Datum>::empty()); }
        r
    }

    /// The stack position that `idx` names in the current frame.
    fn slot_pos(&self, idx: Index) -> (r: Option<usize>)
        requires
            self.wf(),
        ensures
            r matches Some(p) ==> self.pos(idx as int) == Some(p as int),
            r is None ==> self.pos(idx as int) is None,
    {
        proof { self.lemma_view_len(); }
        let len = self.stack.len();
        if idx > 0 {
            let i = idx as usize;
            if i <= len - self.base { Some(self.base + i - 1) } else { None }
        } else if idx < 0 {
            let back: usize = if idx == i32::MIN { len + 1 } else { (-idx) as usize };
            if back <= len - self.base { Some(len - back) } else { None }
        } else {
            None
        }
    }

    /// The slot that `idx` names, if it is in the current frame.
    pub fn slot(&self, idx: Index) -> (r: Option<&Slot>)
        requires
            self.wf(),
        ensures
            match r {
                Some(s) => s.view() == self.at(idx as int) && self.at(idx as int) != Datum::Absent,
                None => self.at(idx as int) == Datum::Absent,
            },
    {
        proof { self.lemma_view_len(); }
        match self.slot_pos(idx) {
            Some(p) => Some(&self.stack[p]),
            None => None,
        }
    }

    /// Number of slots in the current frame.
    pub fn get_top(&self) -> (r: Index)
        requires
            self.wf(),
        ensures
            r as int == self.top(),
    {
        proof { self.lemma_view_len(); }
        (self.stack.len() - self.base) as Index
    }

    /// The index from the bottom of the frame that `idx` names.
    pub fn abs_index(&self, idx: Index) -> (r: Index)
        requires
            self.wf(),
        ensures
            idx >= 0 ==> r == idx,
            idx < 0 ==> r == self.top() + idx + 1,
    {
        let top = self.get_top();
        if idx >= 0 { idx } else { top + idx + 1 }
    }

    /// Whether `extra` more slots fit on the stack.
    pub fn check_stack(&self, extra: Index) -> (r: bool)
        requires
            self.wf(),
        ensures
            r == (extra >= 0 && self.room(extra as int)),
    {
        proof { self.lemma_view_len(); }
        extra >= 0 && (extra as usize) <= LUAI_MAXSTACK - self.stack.len()
    }

    fn push_slot(&mut self, s: Slot)
        requires
            old(self).wf(),
            old(self).room(1),
        ensures
            final(self).wf(),
            final(self).pushed(old(self), s.view()),
    {
        proof { old(self).lemma_view_len(); }
        let ghost v = s.view();
        self.stack.push(s);
        proof { assert(self.view() =~= old(self).view().push(v)); }
    }

    /// Pushes nil.
    pub fn push_nil(&mut self)
        requires
            old(self).wf(),
            old(self).room(1),
        ensures
            final(self).wf(),
            final(self).pushed(old(self), Datum::Nil),
    {
        self.push_slot(Slot::Nil);
    }

    /// Pushes a boolean.
    pub fn push_bool(&mut self, b: bool)
        requires
            old(self).wf(),
            old(self).room(1),
        ensures
            final(self).wf(),
            final(self).pushed(old(self), Datum::Bool(b)),
    {
        self.push_slot(Slot::Bool(b));
    }

    /// Pushes an integer.
    pub fn push_integer(&mut self, i: i64)
        requires
            old(self).wf(),
            old(self).room(1),
        ensures
            final(self).wf(),
            final(self).pushed(old(self), Datum::Int(i)),
    {
        self.push_slot(Slot::Int(i));
    }

    /// Pushes a float, given as its IEEE-754 bit pattern.
    pub fn push_number(&mut self, bits: u64)
        requires
            old(self).wf(),
            old(self).room(1),
        ensures
            final(self).wf(),
            final(self).pushed(old(self), Datum::Num(bits)),
    {
        self.push_slot(Slot::Num(bits));
    }

    /// Pushes a copy of a byte string.
    pub fn push_bytes(&mut self, s: &[u8])
        requires
            old(self).wf(),
            old(self).room(1),
        ensures
            final(self).wf(),
            final(self).pushed(old(self), Datum::Str(s@)),
    {
        let v = vstd::slice::slice_to_vec(s);
        self.push_slot(Slot::Str(v));
    }

    /// Pushes a copy of a string, as its UTF-8 bytes.
    pub fn push_string(&mut self, s: &str)
        requires
            old(self).wf(),
            old(self).room(1),
        ensures
            final(self).wf(),
            final(self).pushed(old(self), Datum::Str(s.spec_bytes())),
    {
        self.push_bytes(s.as_bytes());
    }

    /// Pushes a copy of the slot at `idx`, or nil if `idx` names no slot.
    pub fn push_value(&mut self, idx: Index)
        requires
            old(self).wf(),
            old(self).room(1),
        ensures
            final(self).wf(),
            final(self).pushed(old(self), or_nil(old(self).at(idx as int))),
    {
        let s = match self.slot(idx) {
            Some(s) => s.duplicate(),
            None => Slot::Nil,
        };
        self.push_slot(s);
    }

    /// Sets the number of slots in the current frame to `index` (for
    /// `index >= 0`) or to `top + index + 1`: slots above it are removed,
    /// missing ones are filled with nil.
    pub fn set_top(&mut self, index: Index)
        requires
            old(self).wf(),
            index >= 0 ==> old(self).base() + index <= LUAI_MAXSTACK,
            index < 0 ==> -index <= old(self).top() + 1,
        ensures
            final(self).wf(),
            final(self).base() == old(self).base(),
            final(self).same_heap(old(self)),
            final(self).top() == if index >= 0 { index as int } else { old(self).top() + index + 1 },
            forall|i: int| 0 <= i < final(self).view().len() ==> #[trigger] final(self).view()[i] == if i < old(self).view().len() { old(self).view()[i] } else { Datum::Nil },
    {
        proof { old(self).lemma_view_len(); }
        let target: usize = if index >= 0 { self.base + index as usize } else { self.stack.len() + 1 - ((-(index as i64)) as usize) };
        if target <= self.stack.len() {
            self.stack.truncate(target);
        } else {
            while self.stack.len() < target
                invariant
                    old(self).stack@.len() <= self.stack@.len() <= target <= LUAI_MAXSTACK,
                    self.base == old(self).base,
                    self.same_heap(old(self)),
                    forall|i: int| 0 <= i < self.stack@.len() ==> #[trigger] self.stack@[i].view() == if i < old(self).stack@.len() { old(self).stack@[i].view() } else { Datum::Nil },
                decreases target - self.stack@.len(),
            {
                self.stack.push(Slot::Nil);
            }
        }
        proof { self.lemma_view_len(); }
    }

    /// Removes `n` slots from the top.
    pub fn pop(&mut self, n: Index)
        requires
            old(self).wf(),
            0 <= n <= old(self).top(),
        ensures
            final(self).wf(),
            final(self).base() == old(self).base(),
            final(self).same_heap(old(self)),
            final(self).view() == old(self).view().subrange(0, old(self).view().len() - n),
    {
        proof { old(self).lemma_view_len(); }
        let target = self.stack.len() - n as usize;
        self.stack.truncate(target);
        proof { self.lemma_view_len(); assert(self.view() =~= old(self).view().subrange(0, old(self).view().len() - n)); }
    }

    /// The dynamic type at `idx`; `NoValue` outside the current frame.
    pub fn type_of(&self, idx: Index) -> (r: Type)
        requires
            self.wf(),
        ensures
            r == type_of_datum(self.at(idx as int)),
    {
        match self.slot(idx) {
            Some(s) => s.type_of(),
            None => Type::NoValue,
        }
    }

    /// Whether `idx` holds an integer.
    pub fn is_integer(&self, idx: Index) -> (r: bool)
        requires
            self.wf(),
        ensures
            r == (self.at(idx as int) is Int),
    {
        match self.slot(idx) {
            Some(Slot::Int(_)) => true,
            _ => false,
        }
    }

    /// Whether `idx` holds a number, integer or float.
    pub fn is_number(&self, idx: Index) -> (r: bool)
        requires
            self.wf(),
        ensures
            r == (self.at(idx as int) is Int || self.at(idx as int) is Num),
    {
        match self.slot(idx) {
            Some(Slot::Int(_)) => true,
            Some(Slot::Num(_)) => true,
            _ => false,
        }
    }

    /// Whether `idx` holds a string.
    pub fn is_string(&self, idx: Index) -> (r: bool)
        requires
            self.wf(),
        ensures
            r == (self.at(idx as int) is Str),
    {
        match self.slot(idx) {
            Some(Slot::Str(_)) => true,
            _ => false,
        }
    }

    /// Whether `idx` holds a boolean.
    pub fn is_bool(&self, idx: Index) -> (r: bool)
        requires
            self.wf(),
        ensures
            r == (self.at(idx as int) is Bool),
    {
        match self.slot(idx) {
            Some(Slot::Bool(_)) => true,
            _ => false,
        }
    }

    /// Whether `idx` holds nil.
    pub fn is_nil(&self, idx: Index) -> (r: bool)
        requires
            self.wf(),
        ensures
            r == (self.at(idx as int) is Nil),
    {
        match self.slot(idx) {
            Some(Slot::Nil) => true,
            _ => false,
        }
    }

    /// Whether `idx` is outside the current frame.
    pub fn is_none(&self, idx: Index) -> (r: bool)
        requires
            self.wf(),
        ensures
            r == (self.at(idx as int) is Absent),
    {
        self.slot(idx).is_none()
    }

    /// Whether `idx` is outside the current frame or holds nil.
    pub fn is_none_or_nil(&self, idx: Index) -> (r: bool)
        requires
            self.wf(),
        ensures
            r == (self.at(idx as int) is Absent || self.at(idx as int) is Nil),
    {
        self.is_none(idx) || self.is_nil(idx)
    }

    /// Whether `idx` holds a table.
    pub fn is_table(&self, idx: Index) -> (r: bool)
        requires
            self.wf(),
        ensures
            r == (self.at(idx as int) is Table),
    {
        match self.slot(idx) {
            Some(Slot::Table(_)) => true,
            _ => false,
        }
    }

    /// Whether `idx` holds a callable.
    pub fn is_fn(&self, idx: Index) -> (r: bool)
        requires
            self.wf(),
        ensures
            r == (self.at(idx as int) is Function),
    {
        match self.slot(idx) {
            Some(Slot::Function(_)) => true,
            _ => false,
        }
    }

    /// Whether `idx` holds an opaque object.
    pub fn is_userdata(&self, idx: Index) -> (r: bool)
        requires
            self.wf(),
        ensures
            r == (self.at(idx as int) is Userdata),
    {
        match self.slot(idx) {
            Some(Slot::Userdata(_)) => true,
            _ => false,
        }
    }

    /// The integer at `idx`, if it holds one.
    pub fn to_integerx(&self, idx: Index) -> (r: Option<i64>)
        requires
            self.wf(),
        ensures
            r == (match self.at(idx as int) { Datum::Int(i) => Some(i), _ => None::<i64> }),
    {
        match self.slot(idx) {
            Some(Slot::Int(i)) => Some(*i),
            _ => None,
        }
    }

    /// The integer at `idx`, or 0 if it holds none.
    pub fn to_integer(&self, idx: Index) -> (r: i64)
        requires
            self.wf(),
        ensures
            r == (match self.at(idx as int) { Datum::Int(i) => i, _ => 0 }),
    {
        match self.to_integerx(idx) {
            Some(i) => i,
            None => 0,
        }
    }

    /// The bit pattern of the float at `idx`, if it holds one.
    pub fn to_numberx(&self, idx: Index) -> (r: Option<u64>)
        requires
            self.wf(),
        ensures
            r == (match self.at(idx as int) { Datum::Num(n) => Some(n), _ => None::<u64> }),
    {
        match self.slot(idx) {
            Some(Slot::Num(n)) => Some(*n),
            _ => None,
        }
    }

    /// The truth value of `idx`: false for nil, false and absent slots.
    pub fn to_bool(&self, idx: Index) -> (r: bool)
        requires
            self.wf(),
        ensures
            r == truthy(self.at(idx as int)),
    {
        match self.slot(idx) {
            Some(Slot::Nil) => false,
            Some(Slot::Bool(b)) => *b,
            Some(_) => true,
            None => false,
        }
    }

    /// A view of the bytes of the string at `idx`; it borrows the state, so
    /// the stack cannot change while it is held.
    pub fn to_bytes(&self, idx: Index) -> (r: Option<&[u8]>)
        requires
            self.wf(),
        ensures
            match self.at(idx as int) {
                Datum::Str(b) => r matches Some(s) && s@ == b,
                _ => r is None,
            },
    {
        match self.slot(idx) {
            Some(Slot::Str(v)) => Some(v.as_slice()),
            _ => None,
        }
    }

    /// A view of the string at `idx`, if it holds valid UTF-8.
    pub fn to_str(&self, idx: Index) -> (r: Option<&str>)
        requires
            self.wf(),
        ensures
            match self.at(idx as int) {
                Datum::Str(b) => if vstd::utf8::valid_utf8(b) {
                    r matches Some(s) && s.spec_bytes() == b
                } else {
                    r is None
                },
                _ => r is None,
            },
    {
        match self.to_bytes(idx) {
            Some(b) => from_utf8_checked(b),
            None => None,
        }
    }

    /// Whether `i1` and `i2` both name slots and the slots hold the same
    /// value: the same table or object, or equal scalars.
    pub fn raw_equal(&self, i1: Index, i2: Index) -> (r: bool)
        requires
            self.wf(),
        ensures
            r == (self.at(i1 as int) != Datum::Absent && self.at(i1 as int) == self.at(i2 as int)),
    {
        let a = match self.slot(i1) {
            Some(s) => s,
            None => { return false; },
        };
        let b = match self.slot(i2) {
            Some(s) => s,
            None => { return false; },
        };
        match (a, b) {
            (Slot::Nil, Slot::Nil) => true,
            (Slot::Bool(x), Slot::Bool(y)) => *x == *y,
            (Slot::Int(x), Slot::Int(y)) => *x == *y,
            (Slot::Num(x), Slot::Num(y)) => *x == *y,
            (Slot::Str(x), Slot::Str(y)) => bytes_eq(x.as_slice(), y.as_slice()),
            (Slot::Table(x), Slot::Table(y)) => *x == *y,
            (Slot::Function(x), Slot::Function(y)) => *x == *y,
            (Slot::Userdata(x), Slot::Userdata(y)) => *x == *y,
            _ => false,
        }
    }

    /// A read-out of the slot at `idx`.
    pub fn value(&self, idx: Index) -> (r: Value<'_>)
        requires
            self.wf(),
        ensures
            match self.at(idx as int) {
                Datum::Absent => r is Absent,
                Datum::Nil => r is Nil,
                Datum::Bool(b) => r == Value::Bool(b),
                Datum::Int(i) => r == Value::Int(i),
                Datum::Num(n) => r == Value::Num(n),
                Datum::Str(b) => r matches Value::Str(s) && s@ == b,
                Datum::Table(_) => r is Table,
                Datum::Function(_) => r is Function,
                Datum::Userdata(_) => r is Userdata,
            },
    {
        match self.slot(idx) {
            None => Value::Absent,
            Some(Slot::Nil) => Value::Nil,
            Some(Slot::Bool(b)) => Value::Bool(*b),
            Some(Slot::Int(i)) => Value::Int(*i),
            Some(Slot::Num(n)) => Value::Num(*n),
            Some(Slot::Str(s)) => Value::Str(s.as_slice()),
            Some(Slot::Table(_)) => Value::Table,
            Some(Slot::Function(_)) => Value::Function,
            Some(Slot::Userdata(_)) => Value::Userdata,
        }
    }

    fn meta_of_slot(&self, s: &Slot) -> (r: Option<usize>)
        ensures
            match r {
                Some(m) => self.meta_of(s.view()) == Some(m as nat),
                None => self.meta_of(s.view()) is None,
            },
    {
        match s {
            Slot::Table(t) => if *t < self.tables.len() { self.tables[*t].meta } else { None },
            Slot::Userdata(o) => if *o < self.objects.len() { self.objects[*o].meta } else { None },
            _ => None,
        }
    }

    fn raw_get(&self, t: usize, key: &[u8]) -> (r: Slot)
        ensures
            r.view() == self.raw_field(t as nat, key@),
    {
        if t < self.tables.len() { self.tables[t].get_slot(key) } else { Slot::Nil }
    }

    fn field_of(&self, s: &Slot, key: &[u8]) -> (r: Slot)
        ensures
            r.view() == self.field(s.view(), key@),
    {
        let own = match s {
            Slot::Table(t) => self.raw_get(*t, key),
            _ => Slot::Nil,
        };
        match s {
            Slot::Table(_) => if !matches!(own, Slot::Nil) { return own; },
            Slot::Userdata(_) => {},
            _ => { return Slot::Nil; },
        }
        match self.meta_of_slot(s) {
            Some(m) => {
                let ik = index_key();
                match self.raw_get(m, ik.as_slice()) {
                    Slot::Table(x) => self.raw_get(x, key),
                    _ => Slot::Nil,
                }
            },
            None => Slot::Nil,
        }
    }

    /// Pushes a new empty table.
    pub fn create_table(&mut self, narr: Index, nrec: Index)
        requires
            old(self).wf(),
            old(self).room(1),
        ensures
            final(self).wf(),
            final(self).view() == old(self).view().push(Datum::Table(old(self).n_tables())),
            final(self).base() == old(self).base(),
            final(self).same_objects(old(self)),
            final(self).n_tables() == old(self).n_tables() + 1,
            forall|t: nat, k: Seq<u8>| t < old(self).n_tables() ==> #[trigger] final(self).raw_field(t, k) == old(self).raw_field(t, k),
            forall|t: nat| t < old(self).n_tables() ==> #[trigger] final(self).table_meta(t) == old(self).table_meta(t),
            forall|k: Seq<u8>| #[trigger] final(self).raw_field(old(self).n_tables(), k) == Datum::Nil,
            final(self).table_meta(old(self).n_tables()) is None,
    {
        let t = self.tables.len();
        self.tables.push(TableData::empty());
        proof { old(self).lemma_view_len(); }
        self.stack.push(Slot::Table(t));
        proof {
            assert(self.view() =~= old(self).view().push(Datum::Table(old(self).n_tables())));
            assert forall|tt: nat, k: Seq<u8>| tt < old(self).n_tables() implies #[trigger] self.raw_field(tt, k) == old(self).raw_field(tt, k) by {
                assert(self.tables@[tt as int] == old(self).tables@[tt as int]);
            }
            assert forall|tt: nat| tt < old(self).n_tables() implies #[trigger] self.table_meta(tt) == old(self).table_meta(tt) by {
                assert(self.tables@[tt as int] == old(self).tables@[tt as int]);
            }
        }
    }

    /// Pushes a new empty table.
    pub fn new_table(&mut self)
        requires
            old(self).wf(),
            old(self).room(1),
        ensures
            final(self).wf(),
            final(self).view() == old(self).view().push(Datum::Table(old(self).n_tables())),
            final(self).base() == old(self).base(),
            final(self).same_objects(old(self)),
            final(self).n_tables() == old(self).n_tables() + 1,
            forall|t: nat, k: Seq<u8>| t < old(self).n_tables() ==> #[trigger] final(self).raw_field(t, k) == old(self).raw_field(t, k),
            forall|t: nat| t < old(self).n_tables() ==> #[trigger] final(self).table_meta(t) == old(self).table_meta(t),
            forall|k: Seq<u8>| #[trigger] final(self).raw_field(old(self).n_tables(), k) == Datum::Nil,
            final(self).table_meta(old(self).n_tables()) is None,
    {
        self.create_table(0, 0);
    }

    fn set_raw(&mut self, t: usize, key: &[u8], v: Slot)
        requires
            t < old(self).n_tables(),
        ensures
            final(self).stack == old(self).stack,
            final(self).base == old(self).base,
            final(self).same_objects(old(self)),
            final(self).n_tables() == old(self).n_tables(),
            forall|tt: nat, k: Seq<u8>| #[trigger] final(self).raw_field(tt, k) == if tt == t && k == key@ { v.view() } else { old(self).raw_field(tt, k) },
            forall|tt: nat| #[trigger] final(self).table_meta(tt) == old(self).table_meta(tt),
            final(self).tables@.len() == old(self).tables@.len(),
            forall|i: int| 0 <= i < old(self).tables@.len() && i != t ==> #[trigger] final(self).tables@[i] == old(self).tables@[i],
    {
        let ghost vv = v.view();
        let mut tbl = TableData::empty();
        std::mem::swap(&mut tbl, &mut self.tables[t]);
        tbl.set(key, v);
        std::mem::swap(&mut tbl, &mut self.tables[t]);
        proof {
            assert forall|tt: nat, k: Seq<u8>| #[trigger] self.raw_field(tt, k) == if tt == t && k == key@ { vv } else { old(self).raw_field(tt, k) } by {
                if tt != t && tt < self.tables@.len() {
                    assert(self.tables@[tt as int] == old(self).tables@[tt as int]);
                }
            }
            assert forall|tt: nat| #[trigger] self.table_meta(tt) == old(self).table_meta(tt) by {
                if tt != t && tt < self.tables@.len() {
                    assert(self.tables@[tt as int] == old(self).tables@[tt as int]);
                }
            }
        }
    }

    /// Pops a value and stores it in the table at `idx` under `k`.
    pub fn set_field(&mut self, idx: Index, k: &str)
        requires
            old(self).wf(),
            old(self).top() >= 1,
            old(self).at(idx as int) is Table,
        ensures
            final(self).wf(),
            final(self).view() == old(self).view().drop_last(),
            final(self).base() == old(self).base(),
            final(self).same_objects(old(self)),
            final(self).n_tables() == old(self).n_tables(),
            forall|t: nat, key: Seq<u8>| #[trigger] final(self).raw_field(t, key) ==
                if old(self).at(idx as int) == Datum::Table(t) && key == k.spec_bytes() && t < old(self).n_tables() {
                    old(self).at(-1)
                } else {
                    old(self).raw_field(t, key)
                },
            forall|t: nat| #[trigger] final(self).table_meta(t) == old(self).table_meta(t),
    {
        proof { old(self).lemma_view_len(); }
        let t = match self.slot(idx) {
            Some(Slot::Table(t)) => *t,
            _ => 0,
        };
        let v = self.stack.pop().unwrap();
        proof { assert(self.view() =~= old(self).view().drop_last()); }
        if t < self.tables.len() {
            self.set_raw(t, k.as_bytes(), v);
        }
    }

    /// Pushes `d[k]` for the value `d` at `idx`, looking through the
    /// `__index` table of its behavior table; returns the type pushed.
    pub fn get_field(&mut self, idx: Index, k: &str) -> (r: Type)
        requires
            old(self).wf(),
            old(self).room(1),
        ensures
            final(self).wf(),
            final(self).pushed(old(self), old(self).field(old(self).at(idx as int), k.spec_bytes())),
            r == type_of_datum(old(self).field(old(self).at(idx as int), k.spec_bytes())),
    {
        let v = match self.slot(idx) {
            Some(s) => self.field_of(s, k.as_bytes()),
            None => Slot::Nil,
        };
        let r = v.type_of();
        self.push_slot(v);
        r
    }

    /// Pushes the table of globals.
    pub fn push_global_table(&mut self)
        requires
            old(self).wf(),
            old(self).room(1),
        ensures
            final(self).wf(),
            final(self).pushed(old(self), Datum::Table(LUA_RIDX_GLOBALS as nat)),
    {
        self.push_slot(Slot::Table(LUA_RIDX_GLOBALS));
    }

    /// Pushes the global `name`; returns the type pushed.
    pub fn get_global(&mut self, name: &str) -> (r: Type)
        requires
            old(self).wf(),
            old(self).room(1),
        ensures
            final(self).wf(),
            final(self).pushed(old(self), old(self).raw_field(LUA_RIDX_GLOBALS as nat, name.spec_bytes())),
            r == type_of_datum(old(self).raw_field(LUA_RIDX_GLOBALS as nat, name.spec_bytes())),
    {
        let v = self.raw_get(LUA_RIDX_GLOBALS, name.as_bytes());
        let r = v.type_of();
        self.push_slot(v);
        r
    }

    /// Pops a value and makes it the global `name`.
    pub fn set_global(&mut self, name: &str)
        requires
            old(self).wf(),
            old(self).top() >= 1,
        ensures
            final(self).wf(),
            final(self).view() == old(self).view().drop_last(),
            final(self).base() == old(self).base(),
            final(self).same_objects(old(self)),
            final(self).n_tables() == old(self).n_tables(),
            forall|t: nat, key: Seq<u8>| #[trigger] final(self).raw_field(t, key) ==
                if t == LUA_RIDX_GLOBALS && key == name.spec_bytes() && t < old(self).n_tables() {
                    old(self).at(-1)
                } else {
                    old(self).raw_field(t, key)
                },
            forall|t: nat| #[trigger] final(self).table_meta(t) == old(self).table_meta(t),
    {
        proof { old(self).lemma_view_len(); }
        let v = self.stack.pop().unwrap();
        proof { assert(self.view() =~= old(self).view().drop_last()); }
        if LUA_RIDX_GLOBALS < self.tables.len() {
            self.set_raw(LUA_RIDX_GLOBALS, name.as_bytes(), v);
        }
    }

    fn set_meta(&mut self, target: &Slot, m: Option<usize>)
        ensures
            final(self).stack == old(self).stack,
            final(self).base == old(self).base,
            final(self).cache == old(self).cache,
            final(self).depth == old(self).depth,
            final(self).refs == old(self).refs,
            final(self).free == old(self).free,
            final(self).next_key == old(self).next_key,
            final(self).n_tables() == old(self).n_tables(),
            final(self).n_objects() == old(self).n_objects(),
            forall|t: nat, k: Seq<u8>| #[trigger] final(self).raw_field(t, k) == old(self).raw_field(t, k),
            forall|t: nat| #[trigger] final(self).table_meta(t) == if target.view() == Datum::Table(t) && t < old(self).n_tables() {
                match m { Some(x) => Some(x as nat), None => None }
            } else {
                old(self).table_meta(t)
            },
            forall|o: nat| #[trigger] final(self).object_meta(o) == if target.view() == Datum::Userdata(o) && o < old(self).n_objects() {
                match m { Some(x) => Some(x as nat), None => None }
            } else {
                old(self).object_meta(o)
            },
            forall|o: nat| #[trigger] final(self).live(o) == old(self).live(o),
            forall|o: nat| #[trigger] final(self).payload(o) == old(self).payload(o),
    {
        match target {
            Slot::Table(t) => {
                if *t < self.tables.len() {
                    let mut tbl = TableData::empty();
                    std::mem::swap(&mut tbl, &mut self.tables[*t]);
                    tbl.meta = m;
                    std::mem::swap(&mut tbl, &mut self.tables[*t]);
                    proof {
                        assert forall|tt: nat, k: Seq<u8>| #[trigger] self.raw_field(tt, k) == old(self).raw_field(tt, k) by {
                            if tt < self.tables@.len() && tt != *t {
                                assert(self.tables@[tt as int] == old(self).tables@[tt as int]);
                            }
                        }
                        assert forall|tt: nat| #[trigger] self.table_meta(tt) == if target.view() == Datum::Table(tt) && tt < old(self).n_tables() {
                            match m { Some(x) => Some(x as nat), None => None }
                        } else {
                            old(self).table_meta(tt)
                        } by {
                            if tt < self.tables@.len() && tt != *t {
                                assert(self.tables@[tt as int] == old(self).tables@[tt as int]);
                            }
                        }
                    }
                }
            },
            Slot::Userdata(o) => {
                if *o < self.objects.len() {
                    let mut ob = Object { data: None, meta: None, live: false };
                    std::mem::swap(&mut ob, &mut self.objects[*o]);
                    ob.meta = m;
                    std::mem::swap(&mut ob, &mut self.objects[*o]);
                    proof {
                        assert forall|oo: nat| #[trigger] self.object_meta(oo) == if target.view() == Datum::Userdata(oo) && oo < old(self).n_objects() {
                            match m { Some(x) => Some(x as nat), None => None }
                        } else {
                            old(self).object_meta(oo)
                        } by {
                            if oo < self.objects@.len() && oo != *o {
                                assert(self.objects@[oo as int] == old(self).objects@[oo as int]);
                            }
                        }
                        assert forall|oo: nat| #[trigger] self.live(oo) == old(self).live(oo) by {
                            if oo < self.objects@.len() && oo != *o {
                                assert(self.objects@[oo as int] == old(self).objects@[oo as int]);
                            }
                        }
                        assert forall|oo: nat| #[trigger] self.payload(oo) == old(self).payload(oo) by {
                            if oo < self.objects@.len() && oo != *o {
                                assert(self.objects@[oo as int] == old(self).objects@[oo as int]);
                            }
                        }
                    }
                }
            },
            _ => {},
        }
    }

    /// Pops a table (or nil) and makes it the behavior table of the table
    /// or object at `objindex` (or removes its behavior table).
    pub fn set_metatable(&mut self, objindex: Index)
        requires
            old(self).wf(),
            old(self).top() >= 1,
            old(self).at(-1) is Table || old(self).at(-1) is Nil,
        ensures
            final(self).wf(),
            final(self).view() == old(self).view().drop_last(),
            final(self).base() == old(self).base(),
            final(self).n_tables() == old(self).n_tables(),
            forall|t: nat, k: Seq<u8>| #[trigger] final(self).raw_field(t, k) == old(self).raw_field(t, k),
            forall|t: nat| #[trigger] final(self).table_meta(t) == if old(self).at(objindex as int) == Datum::Table(t) && t < old(self).n_tables() {
                match old(self).at(-1) { Datum::Table(m) => Some(m), _ => None }
            } else {
                old(self).table_meta(t)
            },
            forall|o: nat| #[trigger] final(self).object_meta(o) == if old(self).at(objindex as int) == Datum::Userdata(o) && o < old(self).n_objects() {
                match old(self).at(-1) { Datum::Table(m) => Some(m), _ => None }
            } else {
                old(self).object_meta(o)
            },
            forall|o: nat| #[trigger] final(self).live(o) == old(self).live(o),
            forall|o: nat| #[trigger] final(self).payload(o) == old(self).payload(o),
    {
        proof { old(self).lemma_view_len(); }
        let target = match self.slot(objindex) {
            Some(s) => s.duplicate(),
            None => Slot::Nil,
        };
        let v = self.stack.pop().unwrap();
        proof { assert(self.view() =~= old(self).view().drop_last()); }
        let m = match v {
            Slot::Table(t) => Some(t),
            _ => None,
        };
        self.set_meta(&target, m);
    }

    /// Pushes the behavior table of the value at `objindex` and returns
    /// `true`, or pushes nothing and returns `false` if it has none.
    pub fn get_metatable(&mut self, objindex: Index) -> (r: bool)
        requires
            old(self).wf(),
            old(self).room(1),
        ensures
            final(self).wf(),
            r == old(self).meta_of(old(self).at(objindex as int)) is Some,
            r ==> final(self).pushed(old(self), Datum::Table(old(self).meta_of(old(self).at(objindex as int))->Some_0)),
            !r ==> *final(self) == *old(self),
    {
        let m = match self.slot(objindex) {
            Some(s) => self.meta_of_slot(s),
            None => None,
        };
        match m {
            Some(t) => {
                self.push_slot(Slot::Table(t));
                true
            },
            None => false,
        }
    }

    /// The behavior table cached for type token `key`.
    pub closed spec fn cached(&self, key: u64) -> Option<nat> {
        let j = first_key(self.cache@.map_values(|e: (u64, usize)| e.0), key, 0);
        if 0 <= j < self.cache@.len() { Some(self.cache@[j].1 as nat) } else { None }
    }

    /// Number of native calls now running.
    pub closed spec fn depth(&self) -> nat {
        self.depth as nat
    }

    /// The objects of `old` are here unchanged, perhaps with more after them.
    pub closed spec fn objects_kept(&self, old: &Self) -> bool {
        &&& self.objects@.len() >= old.objects@.len()
        &&& forall|i: int| 0 <= i < old.objects@.len() ==> #[trigger] self.objects@[i] == old.objects@[i]
    }

    /// The tables of `old` are here unchanged, perhaps with more after them.
    pub closed spec fn tables_kept(&self, old: &Self) -> bool {
        &&& self.tables@.len() >= old.tables@.len()
        &&& forall|i: int| 0 <= i < old.tables@.len() ==> #[trigger] self.tables@[i] == old.tables@[i]
    }

    /// Whether some slot of the stack or some table value refers to object `o`.
    pub closed spec fn referenced(&self, o: nat) -> bool {
        refs_in(self.view(), o)
            || refs_in(self.refs@.map_values(|s: Slot| s.view()), o)
            || exists|t: int| 0 <= t < self.tables@.len() && #[trigger] refs_in(self.tables@[t].vals_view(), o)
    }

    /// `self` is `old` with a new object holding `data` pushed on top; with
    /// `key`, the object's behavior table is the one cached for that token,
    /// built and cached first if there was none.
    pub open spec fn pushed_object(&self, old: &Self, data: H, key: Option<u64>) -> bool {
        let o = (self.n_objects() - 1) as nat;
        &&& self.n_objects() >= old.n_objects() + 1
        &&& self.view() == old.view().push(Datum::Userdata(o))
        &&& self.base() == old.base()
        &&& self.depth() == old.depth()
        &&& self.live(o)
        &&& self.payload(o) == Some(data)
        &&& self.objects_kept(old)
        &&& self.tables_kept(old)
        &&& forall|k: u64| old.cached(k) is Some ==> #[trigger] self.cached(k) == old.cached(k)
        &&& match key {
            None => {
                &&& self.object_meta(o) is None
                &&& self.n_tables() == old.n_tables()
                &&& self.n_objects() == old.n_objects() + 1
                &&& forall|k: u64| #[trigger] self.cached(k) == old.cached(k)
            },
            Some(k) => {
                &&& self.cached(k) is Some
                &&& self.object_meta(o) == self.cached(k)
                &&& old.cached(k) is Some ==> self.n_tables() == old.n_tables() && self.n_objects() == old.n_objects() + 1
                &&& old.cached(k) is None ==> self.cached(k) == Some(old.n_tables()) && self.n_tables() == old.n_tables() + 1
            },
        }
    }

    proof fn lemma_kept_facts(&self, old: &Self)
        requires
            self.objects_kept(old),
            self.tables_kept(old),
        ensures
            forall|o: nat| o < old.n_objects() ==> #[trigger] self.object_meta(o) == old.object_meta(o),
            forall|o: nat| o < old.n_objects() ==> #[trigger] self.live(o) == old.live(o),
            forall|o: nat| o < old.n_objects() ==> #[trigger] self.payload(o) == old.payload(o),
            forall|t: nat, k: Seq<u8>| t < old.n_tables() ==> #[trigger] self.raw_field(t, k) == old.raw_field(t, k),
            forall|t: nat| t < old.n_tables() ==> #[trigger] self.table_meta(t) == old.table_meta(t),
    {
        assert forall|o: nat| o < old.n_objects() implies #[trigger] self.object_meta(o) == old.object_meta(o) by {
            assert(self.objects@[o as int] == old.objects@[o as int]);
        }
        assert forall|o: nat| o < old.n_objects() implies #[trigger] self.live(o) == old.live(o) by {
            assert(self.objects@[o as int] == old.objects@[o as int]);
        }
        assert forall|o: nat| o < old.n_objects() implies #[trigger] self.payload(o) == old.payload(o) by {
            assert(self.objects@[o as int] == old.objects@[o as int]);
        }
        assert forall|t: nat, k: Seq<u8>| t < old.n_tables() implies #[trigger] self.raw_field(t, k) == old.raw_field(t, k) by {
            assert(self.tables@[t as int] == old.tables@[t as int]);
        }
        assert forall|t: nat| t < old.n_tables() implies #[trigger] self.table_meta(t) == old.table_meta(t) by {
            assert(self.tables@[t as int] == old.tables@[t as int]);
        }
    }

    fn cache_lookup(&self, key: u64) -> (r: Option<usize>)
        ensures
            match r {
                Some(t) => self.cached(key) == Some(t as nat),
                None => self.cached(key) is None,
            },
    {
        let ghost toks = self.cache@.map_values(|e: (u64, usize)| e.0);
        let mut i: usize = 0;
        while i < self.cache.len()
            invariant
                0 <= i <= self.cache@.len(),
                toks == self.cache@.map_values(|e: (u64, usize)| e.0),
                first_key(toks, key, 0) == first_key(toks, key, i as int),
            decreases self.cache@.len() - i,
        {
            if self.cache[i].0 == key {
                proof { assert(toks[i as int] == key); }
                return Some(self.cache[i].1);
            }
            proof { assert(toks[i as int] != key); }
            i = i + 1;
        }
        None
    }

    fn cache_insert(&mut self, key: u64, t: usize)
        requires
            old(self).cached(key) is None,
        ensures
            final(self).cached(key) == Some(t as nat),
            forall|k: u64| k != key ==> #[trigger] final(self).cached(k) == old(self).cached(k),
            final(self).stack == old(self).stack,
            final(self).base == old(self).base,
            final(self).tables == old(self).tables,
            final(self).objects == old(self).objects,
            final(self).depth == old(self).depth,
            final(self).refs == old(self).refs,
            final(self).free == old(self).free,
            final(self).next_key == old(self).next_key,
    {
        let ghost toks = self.cache@.map_values(|e: (u64, usize)| e.0);
        self.cache.push((key, t));
        proof {
            let nt = self.cache@.map_values(|e: (u64, usize)| e.0);
            assert(nt =~= toks.push(key));
            lemma_first_key_push(toks, key, key, 0);
            lemma_first_key_range(toks, key, 0);
            assert forall|k: u64| k != key implies #[trigger] self.cached(k) == old(self).cached(k) by {
                lemma_first_key_push(toks, key, k, 0);
                lemma_first_key_range(toks, k, 0);
            }
        }
    }

    fn new_object(&mut self, data: Option<H>, meta: Option<usize>) -> (o: usize)
        ensures
            o == old(self).objects@.len(),
            final(self).objects@ == old(self).objects@.push(Object { data, meta, live: true }),
            final(self).stack == old(self).stack,
            final(self).base == old(self).base,
            final(self).tables == old(self).tables,
            final(self).cache == old(self).cache,
            final(self).depth == old(self).depth,
            final(self).refs == old(self).refs,
            final(self).free == old(self).free,
            final(self).next_key == old(self).next_key,
    {
        let o = self.objects.len();
        self.objects.push(Object { data, meta, live: true });
        o
    }

    /// Builds the behavior table that `decl` declares; returns its handle.
    fn build_metatable(&mut self, decl: MetatableDecl<H>) -> (t: usize)
        ensures
            t == old(self).n_tables(),
            final(self).n_tables() == old(self).n_tables() + 1,
            final(self).tables_kept(old(self)),
            final(self).objects_kept(old(self)),
            final(self).stack == old(self).stack,
            final(self).base == old(self).base,
            final(self).cache == old(self).cache,
            final(self).depth == old(self).depth,
            final(self).refs == old(self).refs,
            final(self).free == old(self).free,
            final(self).next_key == old(self).next_key,
            final(self).table_meta(t as nat) is None,
            decl.index_self ==> final(self).raw_field(t as nat, index_key_spec()) == Datum::Table(t as nat),
    {
        let t = self.tables.len();
        self.tables.push(TableData::empty());
        let nk = name_key();
        self.set_raw(t, nk.as_slice(), Slot::Str(vstd::slice::slice_to_vec(decl.name.as_str().as_bytes())));
        let mut pending = decl.methods;
        let mut ordered: Vec<(String, H)> = Vec::new();
        while pending.len() > 0
            decreases pending@.len(),
        {
            let m = pending.pop().unwrap();
            ordered.push(m);
        }
        while ordered.len() > 0
            invariant
                t == old(self).tables@.len(),
                self.tables@.len() == t + 1,
                forall|i: int| 0 <= i < t ==> #[trigger] self.tables@[i] == old(self).tables@[i],
                self.table_meta(t as nat) is None,
                self.objects@.len() >= old(self).objects@.len(),
                forall|i: int| 0 <= i < old(self).objects@.len() ==> #[trigger] self.objects@[i] == old(self).objects@[i],
                self.stack == old(self).stack,
                self.base == old(self).base,
                self.cache == old(self).cache,
                self.depth == old(self).depth,
                self.refs == old(self).refs,
                self.free == old(self).free,
                self.next_key == old(self).next_key,
            decreases ordered@.len(),
        {
            let (name, h) = ordered.pop().unwrap();
            let o = self.new_object(Some(h), None);
            self.set_raw(t, name.as_str().as_bytes(), Slot::Function(o));
        }
        if decl.index_self {
            let ik = index_key();
            self.set_raw(t, ik.as_slice(), Slot::Table(t));
        }
        t
    }

    fn metatable_for<I: InitMetatable<H>>(&mut self, mt: &Metatable<I>) -> (t: usize)
        ensures
            final(self).cached(mt.key) == Some(t as nat),
            old(self).cached(mt.key) is Some ==> *final(self) == *old(self),
            old(self).cached(mt.key) is None ==> t == old(self).n_tables() && final(self).n_tables() == old(self).n_tables() + 1,
            final(self).tables_kept(old(self)),
            final(self).objects_kept(old(self)),
            final(self).stack == old(self).stack,
            final(self).base == old(self).base,
            final(self).depth == old(self).depth,
            final(self).refs == old(self).refs,
            final(self).free == old(self).free,
            final(self).next_key == old(self).next_key,
            forall|k: u64| old(self).cached(k) is Some ==> #[trigger] final(self).cached(k) == old(self).cached(k),
            forall|k: u64| k != mt.key ==> #[trigger] final(self).cached(k) == old(self).cached(k),
    {
        match self.cache_lookup(mt.key) {
            Some(t) => t,
            None => {
                let decl = mt.init.init();
                let t = self.build_metatable(decl);
                proof { assert(self.cached(mt.key) is None); }
                self.cache_insert(mt.key, t);
                t
            },
        }
    }

    /// Pushes a new object that owns `data`. With a metatable, the object
    /// gets the behavior table cached for its type token, which is built
    /// and cached on the first object of the type only.
    pub fn push_userdata<I: InitMetatable<H>>(&mut self, data: H, metatable: Option<&Metatable<I>>)
        requires
            old(self).wf(),
            old(self).room(1),
        ensures
            final(self).wf(),
            final(self).pushed_object(old(self), data, match metatable { Some(m) => Some(m.key), None => None }),
    {
        let m = match metatable {
            Some(mt) => Some(self.metatable_for(mt)),
            None => None,
        };
        let ghost mid = *self;
        let ghost d = data;
        let o = self.new_object(Some(data), m);
        proof { mid.lemma_view_len(); }
        self.stack.push(Slot::Userdata(o));
        proof {
            self.lemma_view_len();
            assert(self.view() =~= old(self).view().push(Datum::Userdata(o as nat)));
            assert(self.objects@[o as int] == Object { data: Some(d), meta: m, live: true });
            assert forall|i: int| 0 <= i < old(self).objects@.len() implies #[trigger] self.objects@[i] == old(self).objects@[i] by {
                assert(self.objects@[i] == mid.objects@[i]);
            }
            assert forall|k: u64| #[trigger] self.cached(k) == mid.cached(k) by {
                assert(self.cache == mid.cache);
            }
        }
    }

    /// The host value of the object at `idx`, if it is a live object.
    pub fn to_userdata(&self, idx: Index) -> (r: Option<&H>)
        requires
            self.wf(),
        ensures
            match self.at(idx as int) {
                Datum::Userdata(o) => match self.payload(o) {
                    Some(h) => r == Some(&h),
                    None => r is None,
                },
                _ => r is None,
            },
    {
        match self.slot(idx) {
            Some(Slot::Userdata(o)) => {
                if *o < self.objects.len() {
                    match &self.objects[*o].data {
                        Some(h) => Some(h),
                        None => None,
                    }
                } else {
                    None
                }
            },
            _ => None,
        }
    }

    /// Pushes a native function whose closure `f` the VM now owns; the
    /// closure is dropped when the collector finalizes the function.
    pub fn rust_closure(&mut self, f: H)
        requires
            old(self).wf(),
            old(self).room(1),
        ensures
            final(self).wf(),
            final(self).view() == old(self).view().push(Datum::Function(old(self).n_objects())),
            final(self).base() == old(self).base(),
            final(self).same_tables(old(self)),
            final(self).n_objects() == old(self).n_objects() + 1,
            final(self).objects_kept(old(self)),
            final(self).live(old(self).n_objects()),
            final(self).payload(old(self).n_objects()) == Some(f),
            final(self).object_meta(old(self).n_objects()) is None,
            forall|k: u64| #[trigger] final(self).cached(k) == old(self).cached(k),
            final(self).depth() == old(self).depth(),
    {
        let ghost g = f;
        let o = self.new_object(Some(f), None);
        proof { old(self).lemma_view_len(); }
        self.stack.push(Slot::Function(o));
        proof {
            self.lemma_view_len();
            assert(self.view() =~= old(self).view().push(Datum::Function(o as nat)));
            assert(self.objects@[o as int] == Object { data: Some(g), meta: None, live: true });
        }
    }

    fn fail(&mut self, fpos: usize, msg: Vec<u8>) -> (r: ThreadStatus)
        requires
            old(self).wf(),
            old(self).base() <= fpos < LUAI_MAXSTACK,
            fpos <= old(self).view().len(),
        ensures
            final(self).wf(),
            r == ThreadStatus::RuntimeError,
            final(self).base() == old(self).base(),
            final(self).view() == old(self).view().subrange(0, fpos as int).push(Datum::Str(msg@)),
            final(self).same_heap(old(self)),
    {
        proof { old(self).lemma_view_len(); }
        let ghost m = msg@;
        self.stack.truncate(fpos);
        self.stack.push(Slot::Str(msg));
        proof {
            self.lemma_view_len();
            assert(self.view() =~= old(self).view().subrange(0, fpos as int).push(Datum::Str(m)));
        }
        ThreadStatus::RuntimeError
    }


    /// Makes the native function with closure `f` the global `name`.
    pub fn register(&mut self, name: &str, f: H)
        requires
            old(self).wf(),
            old(self).room(1),
        ensures
            final(self).wf(),
            final(self).view() == old(self).view(),
            final(self).base() == old(self).base(),
            final(self).live(old(self).n_objects()),
            final(self).payload(old(self).n_objects()) == Some(f),
            old(self).n_tables() > LUA_RIDX_GLOBALS ==> final(self).raw_field(LUA_RIDX_GLOBALS as nat, name.spec_bytes())
                == Datum::Function(old(self).n_objects()),
    {
        self.rust_closure(f);
        let ghost mid = *self;
        self.set_global(name);
        proof {
            assert(self.view() =~= old(self).view());
            assert(self.objects == mid.objects);
        }
    }

    /// Replaces everything from stack position `fpos` on with what a call
    /// that ended with `res` and left the stack `results` gives back (see
    /// `call_outcome`), and returns the call's status.
    pub fn complete_call(&mut self, fpos: usize, res: Result<Index, Raise>, results: &Vec<Slot>, nresults: Index) -> (r: ThreadStatus)
        requires
            old(self).wf(),
            old(self).base() <= fpos <= old(self).view().len(),
            fpos < LUAI_MAXSTACK,
            nresults >= LUA_MULTRET,
        ensures
            final(self).wf(),
            final(self).base() == old(self).base(),
            final(self).same_heap(old(self)),
            r == call_outcome(res, slots_view(results@), fpos as int, nresults).0,
            final(self).view() == old(self).view().subrange(0, fpos as int) + call_outcome(res, slots_view(results@), fpos as int, nresults).1,
    {
        let ghost rv = slots_view(results@);
        let ghost prefix = old(self).view().subrange(0, fpos as int);
        match res {
            Ok(k) => {
                if k < 0 || (k as usize) > results.len() {
                    let st = self.fail(fpos, failure_message(CallFailure::BadResultCount));
                    proof { assert(self.view() =~= prefix + call_outcome(res, rv, fpos as int, nresults).1); }
                    return st;
                }
                let k = k as usize;
                let n: usize = if nresults == LUA_MULTRET { k } else { nresults as usize };
                if n > LUAI_MAXSTACK - fpos {
                    let st = self.fail(fpos, failure_message(CallFailure::StackOverflow));
                    proof { assert(self.view() =~= prefix + call_outcome(res, rv, fpos as int, nresults).1); }
                    return st;
                }
                proof { old(self).lemma_view_len(); }
                self.stack.truncate(fpos);
                let ghost taken = rv.subrange(results@.len() - k, results@.len() as int);
                let mut i: usize = 0;
                while i < n
                    invariant
                        0 <= i <= n,
                        fpos + n <= LUAI_MAXSTACK,
                        k <= results@.len(),
                        rv == slots_view(results@),
                        taken == rv.subrange(results@.len() - k, results@.len() as int),
                        self.stack@.len() == fpos + i,
                        prefix.len() == fpos,
                        self.base == old(self).base,
                        old(self).base <= fpos,
                        self.tables == old(self).tables,
                        self.objects == old(self).objects,
                        self.cache == old(self).cache,
                        self.depth == old(self).depth,
                        self.refs == old(self).refs,
                        self.free == old(self).free,
                        self.next_key == old(self).next_key,
                        forall|j: int| 0 <= j < fpos ==> #[trigger] self.stack@[j].view() == prefix[j],
                        forall|j: int| 0 <= j < i ==> #[trigger] self.stack@[fpos + j].view() == adjusted(taken, n as nat)[j],
                    decreases n - i,
                {
                    if i < k {
                        let at: usize = results.len() - k + i;
                        let s = results[at].duplicate();
                        self.stack.push(s);
                    } else {
                        self.stack.push(Slot::Nil);
                    }
                    i = i + 1;
                }
                proof {
                    self.lemma_view_len();
                    let want = prefix + adjusted(taken, n as nat);
                    assert forall|j: int| 0 <= j < self.view().len() implies #[trigger] self.view()[j] == want[j] by {
                        if j >= fpos {
                            assert(self.stack@[fpos + (j - fpos)].view() == adjusted(taken, n as nat)[j - fpos]);
                        }
                    }
                    assert(self.view() =~= want);
                }
                ThreadStatus::Success
            },
            Err(e) => {
                let msg = raise_message(&e);
                let st = self.fail(fpos, msg);
                proof { assert(self.view() =~= prefix + call_outcome(res, rv, fpos as int, nresults).1); }
                st
            },
        }
    }

    /// The value that reference `r` names; nil for a reference that names
    /// nothing.
    pub closed spec fn ref_value(&self, r: int) -> Datum {
        if 1 <= r <= self.refs@.len() { self.refs@[r - 1].view() } else { Datum::Nil }
    }

    /// Pops a value and keeps it under a new reference, which it returns;
    /// a nil value is not kept and gets `LUA_REFNIL`.
    pub fn reference(&mut self) -> (r: Reference)
        requires
            old(self).wf(),
            old(self).top() >= 1,
        ensures
            final(self).wf(),
            final(self).view() == old(self).view().drop_last(),
            final(self).base() == old(self).base(),
            final(self).same_tables(old(self)),
            forall|o: nat| #[trigger] final(self).live(o) == old(self).live(o),
            forall|o: nat| #[trigger] final(self).payload(o) == old(self).payload(o),
            old(self).at(-1) is Nil ==> r.0 == LUA_REFNIL,
            !(old(self).at(-1) is Nil) ==> r.0 == LUA_NOREF || (r.0 >= 1 && final(self).ref_value(r.0 as int) == old(self).at(-1)
                && old(self).ref_value(r.0 as int) == Datum::Nil),
            forall|q: int| q != r.0 ==> #[trigger] final(self).ref_value(q) == old(self).ref_value(q),
    {
        proof { old(self).lemma_view_len(); }
        let v = self.stack.pop().unwrap();
        proof { assert(self.view() =~= old(self).view().drop_last()); }
        if matches!(v, Slot::Nil) {
            return Reference(LUA_REFNIL);
        }
        let ghost vv = v.view();
        proof { assert(vv == old(self).at(-1)); }
        let ghost popped = self.stack;
        let mut slot: Option<usize> = None;
        while self.free.len() > 0 && slot.is_none()
            invariant
                self.stack == popped,
                self.base == old(self).base,
                self.tables == old(self).tables,
                self.objects == old(self).objects,
                self.cache == old(self).cache,
                self.depth == old(self).depth,
                self.refs == old(self).refs,
                self.next_key == old(self).next_key,
                slot matches Some(i) ==> i < self.refs@.len() && self.refs@[i as int].view() == Datum::Nil,
            decreases self.free@.len(),
        {
            let i = self.free.pop().unwrap();
            if i < self.refs.len() && matches!(self.refs[i], Slot::Nil) {
                slot = Some(i);
            }
        }
        let i = match slot {
            Some(i) => i,
            None => {
                if self.refs.len() >= (i32::MAX as usize) {
                    return Reference(LUA_NOREF);
                }
                self.refs.push(Slot::Nil);
                self.refs.len() - 1
            },
        };
        if i >= (i32::MAX as usize) {
            return Reference(LUA_NOREF);
        }
        let ghost before = self.refs@;
        self.refs.set(i, v);
        proof {
            assert(self.view() =~= old(self).view().drop_last());
            assert forall|q: int| q != (i + 1) implies #[trigger] self.ref_value(q) == old(self).ref_value(q) by {
                if 1 <= q <= self.refs@.len() && q - 1 < old(self).refs@.len() {
                    assert(self.refs@[q - 1] == old(self).refs@[q - 1]);
                }
            }
        }
        Reference((i + 1) as i32)
    }

    /// Forgets what reference `r` names, so the collector may reclaim it.
    pub fn unreference(&mut self, r: Reference)
        requires
            old(self).wf(),
        ensures
            final(self).wf(),
            final(self).view() == old(self).view(),
            final(self).base() == old(self).base(),
            final(self).same_tables(old(self)),
            forall|o: nat| #[trigger] final(self).live(o) == old(self).live(o),
            forall|o: nat| #[trigger] final(self).payload(o) == old(self).payload(o),
            final(self).ref_value(r.0 as int) == Datum::Nil,
            forall|q: int| q != r.0 ==> #[trigger] final(self).ref_value(q) == old(self).ref_value(q),
    {
        if r.0 >= 1 && (r.0 as usize) <= self.refs.len() {
            let i = (r.0 - 1) as usize;
            self.refs.set(i, Slot::Nil);
            self.free.push(i);
            proof {
                assert forall|q: int| q != r.0 implies #[trigger] self.ref_value(q) == old(self).ref_value(q) by {
                    if 1 <= q <= self.refs@.len() {
                        assert(self.refs@[q - 1] == old(self).refs@[q - 1]);
                    }
                }
            }
        }
    }

    /// Pushes the value that reference `r` names (nil if it names nothing).
    pub fn push_reference(&mut self, r: Reference)
        requires
            old(self).wf(),
            old(self).room(1),
        ensures
            final(self).wf(),
            final(self).pushed(old(self), old(self).ref_value(r.0 as int)),
    {
        let v = if r.0 >= 1 && (r.0 as usize) <= self.refs.len() {
            self.refs[(r.0 - 1) as usize].duplicate()
        } else {
            Slot::Nil
        };
        self.push_slot(v);
    }

    /// The next type token that `new_type_key` hands out.
    pub closed spec fn next_type_key(&self) -> u64 {
        self.next_key
    }

    /// A type token that this state has not handed out before, for the
    /// behavior of one host type.
    pub fn new_type_key(&mut self) -> (r: u64)
        requires
            old(self).next_type_key() < u64::MAX,
        ensures
            r == old(self).next_type_key(),
            final(self).next_type_key() == r + 1,
            final(self).view() == old(self).view(),
            final(self).base() == old(self).base(),
            final(self).same_tables(old(self)),
            forall|k: u64| #[trigger] final(self).cached(k) == old(self).cached(k),
    {
        let r = self.next_key;
        self.next_key = r + 1;
        r
    }

    /// `self` is what a collection makes of `old`.
    pub open spec fn collected(&self, old: &Self) -> bool {
        &&& self.view() == old.view()
        &&& self.base() == old.base()
        &&& self.same_tables(old)
        &&& self.depth() == old.depth()
        &&& self.n_objects() == old.n_objects()
        &&& forall|k: u64| #[trigger] self.cached(k) == old.cached(k)
        &&& forall|o: nat| #[trigger] self.object_meta(o) == old.object_meta(o)
        &&& old.depth() > 0 ==> *self == *old
        &&& old.depth() == 0 ==> forall|o: nat| #[trigger] self.live(o) == (old.live(o) && old.referenced(o))
        &&& forall|o: nat| #[trigger] self.live(o) ==> self.payload(o) == old.payload(o)
        &&& forall|o: nat| old.live(o) && !self.live(o) ==> #[trigger] self.payload(o) is None
        &&& forall|o: nat| !old.live(o) ==> #[trigger] self.payload(o) == old.payload(o)
    }

    /// Finalizes every live object that no stack slot and no table value
    /// refers to: its host value is dropped, which runs its destructor, and
    /// it is never called again. While a native call runs, collection waits.
    pub fn collect_garbage(&mut self)
        requires
            old(self).wf(),
        ensures
            final(self).wf(),
            final(self).collected(old(self)),
    {
        if self.depth > 0 {
            return;
        }
        let n = self.objects.len();
        let mut marks: Vec<bool> = Vec::new();
        while marks.len() < n
            invariant
                marks@.len() <= n,
                forall|o: int| 0 <= o < marks@.len() ==> !#[trigger] marks@[o],
            decreases n - marks@.len(),
        {
            marks.push(false);
        }
        mark_slots(&mut marks, &self.stack);
        proof { self.lemma_view_len(); assert(self.stack@.map_values(|s: Slot| s.view()) == self.view()); }
        mark_slots(&mut marks, &self.refs);
        let mut t: usize = 0;
        while t < self.tables.len()
            invariant
                0 <= t <= self.tables@.len(),
                marks@.len() == n,
                n == self.objects@.len(),
                forall|o: int| 0 <= o < n ==> #[trigger] marks@[o] == (refs_in(self.view(), o as nat)
                    || refs_in(self.refs@.map_values(|s: Slot| s.view()), o as nat)
                    || exists|tt: int| 0 <= tt < t && #[trigger] refs_in(self.tables@[tt].vals_view(), o as nat)),
            decreases self.tables@.len() - t,
        {
            mark_slots(&mut marks, &self.tables[t].vals);
            proof {
                assert forall|o: int| 0 <= o < n implies #[trigger] marks@[o] == (refs_in(self.view(), o as nat)
                    || refs_in(self.refs@.map_values(|s: Slot| s.view()), o as nat)
                    || exists|tt: int| 0 <= tt < t + 1 && #[trigger] refs_in(self.tables@[tt].vals_view(), o as nat)) by {
                    if refs_in(self.tables@[t as int].vals_view(), o as nat) {
                        assert(0 <= t < t + 1);
                    }
                }
            }
            t = t + 1;
        }
        let ghost before = *self;
        let mut o: usize = 0;
        while o < n
            invariant
                0 <= o <= n,
                n == self.objects@.len(),
                marks@.len() == n,
                self.stack == before.stack,
                self.base == before.base,
                self.tables == before.tables,
                self.cache == before.cache,
                self.depth == before.depth,
                self.refs == before.refs,
                self.free == before.free,
                self.next_key == before.next_key,
                self.objects@.len() == before.objects@.len(),
                forall|i: int| o <= i < n ==> #[trigger] self.objects@[i] == before.objects@[i],
                forall|i: int| 0 <= i < o ==> #[trigger] self.objects@[i].meta == before.objects@[i].meta,
                forall|i: int| 0 <= i < o ==> #[trigger] self.objects@[i].live == (before.objects@[i].live && marks@[i]),
                forall|i: int| 0 <= i < o && self.objects@[i].live ==> #[trigger] self.objects@[i].data == before.objects@[i].data,
                forall|i: int| 0 <= i < o && !self.objects@[i].live && before.objects@[i].live ==> #[trigger] self.objects@[i].data is None,
                forall|i: int| 0 <= i < o && !before.objects@[i].live ==> #[trigger] self.objects@[i] == before.objects@[i],
            decreases n - o,
        {
            if self.objects[o].live && !marks[o] {
                let m = self.objects[o].meta;
                self.objects.set(o, Object { data: None, meta: m, live: false });
            }
            o = o + 1;
        }
        proof {
            assert forall|k: u64| #[trigger] self.cached(k) == old(self).cached(k) by {}
            assert forall|i: nat| #[trigger] self.live(i) == (old(self).live(i) && old(self).referenced(i)) by {
                if i < n {
                    assert(marks@[i as int] == old(self).referenced(i));
                }
            }
            assert forall|i: nat| #[trigger] self.object_meta(i) == old(self).object_meta(i) by {}
            assert forall|i: nat| #[trigger] self.live(i) implies self.payload(i) == old(self).payload(i) by {}
            assert forall|i: nat| old(self).live(i) && !self.live(i) implies #[trigger] self.payload(i) is None by {}
            assert forall|i: nat| !old(self).live(i) implies #[trigger] self.payload(i) == old(self).payload(i) by {}
        }
    }

    /// Whether `d` is a table or an object of this state.
    pub open spec fn valid_handle(&self, d: Datum) -> bool {
        match d {
            Datum::Table(t) => t < self.n_tables(),
            Datum::Userdata(o) => o < self.n_objects(),
            _ => false,
        }
    }

    /// `self` is `old` after the value on top got the behavior table cached
    /// for type token `key`, built and cached first if there was none.
    pub open spec fn metatable_set(&self, old: &Self, key: u64) -> bool {
        &&& self.cached(key) is Some
        &&& self.meta_of(self.at(-1)) == self.cached(key)
        &&& self.valid_handle(self.at(-1))
        &&& forall|k: u64| k != key ==> #[trigger] self.cached(k) == old.cached(k)
        &&& old.cached(key) is Some ==> self.cached(key) == old.cached(key) && self.n_tables() == old.n_tables()
        &&& old.cached(key) is None ==> self.cached(key) == Some(old.n_tables()) && self.n_tables() == old.n_tables() + 1
    }

    /// Gives the table or object on top the behavior table cached for the
    /// type token of `mt`, building and caching it first if there is none.
    pub fn set_or_init_metatable<I: InitMetatable<H>>(&mut self, mt: &Metatable<I>)
        requires
            old(self).wf(),
            old(self).valid_handle(old(self).at(-1)),
        ensures
            final(self).wf(),
            final(self).view() == old(self).view(),
            final(self).base() == old(self).base(),
            final(self).metatable_set(old(self), mt.key),
    {
        proof { old(self).lemma_view_len(); }
        let m = self.metatable_for(mt);
        let ghost mid = *self;
        proof { mid.lemma_kept_facts(old(self)); }
        let target = match self.slot(-1) {
            Some(s) => s.duplicate(),
            None => Slot::Nil,
        };
        self.set_meta(&target, Some(m));
        proof {
            assert(self.view() == mid.view());
            assert forall|k: u64| mid.cached(k) is Some implies #[trigger] self.cached(k) == mid.cached(k) by {}
        }
    }

    /// Pushes field `e` of the behavior table of the value at `obj` and
    /// returns `true`; pushes nothing and returns `false` when there is no
    /// behavior table or the field is nil.
    pub fn get_metafield(&mut self, obj: Index, e: &str) -> (r: bool)
        requires
            old(self).wf(),
            old(self).room(1),
        ensures
            final(self).wf(),
            r == (old(self).meta_of(old(self).at(obj as int)) matches Some(m)
                && !(old(self).raw_field(m, e.spec_bytes()) is Nil)),
            r ==> final(self).pushed(old(self), old(self).raw_field(old(self).meta_of(old(self).at(obj as int))->Some_0, e.spec_bytes())),
            !r ==> *final(self) == *old(self),
    {
        let m = match self.slot(obj) {
            Some(s) => self.meta_of_slot(s),
            None => None,
        };
        match m {
            Some(t) => {
                let v = self.raw_get(t, e.as_bytes());
                if matches!(v, Slot::Nil) {
                    false
                } else {
                    self.push_slot(v);
                    true
                }
            },
            None => false,
        }
    }

    /// Stores each of `fns` as a native function in the table on top, under
    /// its name; a later name overrides an earlier equal one.
    pub fn set_fns(&mut self, fns: Vec<(String, H)>)
        requires
            old(self).wf(),
            old(self).at(-1) is Table,
            (old(self).at(-1)->Table_0) < old(self).n_tables(),
        ensures
            final(self).wf(),
            final(self).view() == old(self).view(),
            final(self).base() == old(self).base(),
            final(self).n_tables() == old(self).n_tables(),
            final(self).n_objects() == old(self).n_objects() + fns@.len(),
            final(self).objects_kept(old(self)),
            forall|i: int| 0 <= i < fns@.len() ==> #[trigger] final(self).payload((old(self).n_objects() + i) as nat) == Some(fns@[i].1)
                && final(self).live((old(self).n_objects() + i) as nat),
            forall|i: int| 0 <= i < fns@.len() && (forall|j: int| i < j < fns@.len() ==> fns@[j].0@ != fns@[i].0@) ==>
                #[trigger] final(self).raw_field(old(self).at(-1)->Table_0, encode_utf8(fns@[i].0@))
                    == Datum::Function((old(self).n_objects() + i) as nat),
            forall|t: nat, k: Seq<u8>| t != old(self).at(-1)->Table_0 ==> #[trigger] final(self).raw_field(t, k) == old(self).raw_field(t, k),
            forall|k: u64| #[trigger] final(self).cached(k) == old(self).cached(k),
    {
        proof { old(self).lemma_view_len(); }
        let t = match self.slot(-1) {
            Some(Slot::Table(t)) => *t,
            _ => 0,
        };
        let ghost orig = fns@;
        let ghost names = fns@.map_values(|p: (String, H)| encode_utf8(p.0@));
        let ghost n0 = old(self).objects@.len();
        let total = fns.len();
        let mut rest = fns;
        let mut done: usize = 0;
        while rest.len() > 0
            invariant
                t < self.tables@.len(),
                t == old(self).at(-1)->Table_0,
                self.tables@.len() == old(self).tables@.len(),
                self.stack == old(self).stack,
                self.base == old(self).base,
                self.cache == old(self).cache,
                self.depth == old(self).depth,
                self.refs == old(self).refs,
                self.free == old(self).free,
                self.next_key == old(self).next_key,
                done + rest@.len() == total,
                total == orig.len(),
                n0 == old(self).objects@.len(),
                self.objects@.len() == n0 + done,
                forall|i: int| 0 <= i < n0 ==> #[trigger] self.objects@[i] == old(self).objects@[i],
                names.len() == total,
                names == orig.map_values(|p: (String, H)| encode_utf8(p.0@)),
                forall|i: int| 0 <= i < rest@.len() ==> #[trigger] rest@[i] == orig[done + i],
                forall|i: int| 0 <= i < done ==> #[trigger] self.payload((n0 + i) as nat) == Some(orig[i].1)
                    && self.live((n0 + i) as nat),
                forall|i: int| 0 <= i < done && (forall|j: int| i < j < done ==> names[j] != names[i]) ==>
                    #[trigger] self.raw_field(t as nat, names[i]) == Datum::Function((n0 + i) as nat),
                forall|tt: nat, k: Seq<u8>| tt != t ==> #[trigger] self.raw_field(tt, k) == old(self).raw_field(tt, k),
            decreases rest@.len(),
        {
            let ghost before = rest@;
            let ghost start = *self;
            let (name, h) = rest.remove(0);
            proof { assert(before[0] == orig[done as int]); assert(h == orig[done as int].1); }
            let ghost hh = h;
            let o = self.new_object(Some(h), None);
            let ghost mid = *self;
            let key = name.as_str().as_bytes();
            proof { assert(key@ == encode_utf8(name@)); assert(names[done as int] == key@); }
            self.set_raw(t, key, Slot::Function(o));
            proof {
                assert(mid.tables == start.tables);
                assert forall|i: int| 0 <= i < done + 1 implies #[trigger] self.payload((n0 + i) as nat) == Some(orig[i].1)
                    && self.live((n0 + i) as nat) by {
                    assert(self.objects == mid.objects);
                    if i < done {
                        assert(start.payload((n0 + i) as nat) == Some(orig[i].1));
                        assert(self.objects@[n0 + i] == start.objects@[n0 + i]);
                    } else {
                        assert(self.objects@[n0 + i] == Object { data: Some(hh), meta: None, live: true });
                    }
                }
                assert forall|i: int| 0 <= i < done + 1 && (forall|j: int| i < j < done + 1 ==> names[j] != names[i]) implies
                    #[trigger] self.raw_field(t as nat, names[i]) == Datum::Function((n0 + i) as nat) by {
                    if i < done {
                        assert(names[done as int] != names[i]);
                        assert(self.raw_field(t as nat, names[i]) == mid.raw_field(t as nat, names[i]));
                        assert(mid.raw_field(t as nat, names[i]) == start.raw_field(t as nat, names[i]));
                    }
                }
                assert forall|tt: nat, k: Seq<u8>| tt != t implies #[trigger] self.raw_field(tt, k) == old(self).raw_field(tt, k) by {
                    assert(self.raw_field(tt, k) == mid.raw_field(tt, k));
                    assert(mid.raw_field(tt, k) == start.raw_field(tt, k));
                }
                assert forall|i: int| 0 <= i < rest@.len() implies #[trigger] rest@[i] == orig[done + 1 + i] by {
                    assert(rest@[i] == before[i + 1]);
                }
            }
            done = done + 1;
        }
        proof {
            assert forall|i: int| 0 <= i < orig.len() && (forall|j: int| i < j < orig.len() ==> orig[j].0@ != orig[i].0@) implies
                #[trigger] self.raw_field(t as nat, encode_utf8(orig[i].0@)) == Datum::Function((n0 + i) as nat) by {
                assert(names[i] == encode_utf8(orig[i].0@));
                assert forall|j: int| i < j < orig.len() implies names[j] != names[i] by {
                    vstd::utf8::encode_utf8_decode_utf8(orig[i].0@);
                    vstd::utf8::encode_utf8_decode_utf8(orig[j].0@);
                }
            }
            assert(self.view() == old(self).view());
        }
    }

    /// Whether `idx` holds a function or object that has not been finalized.
    pub fn is_live(&self, idx: Index) -> (r: bool)
        requires
            self.wf(),
        ensures
            r == match self.at(idx as int) {
                Datum::Function(o) => self.live(o),
                Datum::Userdata(o) => self.live(o),
                _ => false,
            },
    {
        let o = match self.slot(idx) {
            Some(Slot::Function(o)) => *o,
            Some(Slot::Userdata(o)) => *o,
            _ => { return false; },
        };
        o < self.objects.len() && self.objects[o].live
    }

    /// Runs `callback` against the state and then restores the number of
    /// slots in the current frame to what it was on entry, whatever the
    /// callback pushed or popped, and whether it succeeded or failed.
    pub fn balance_with<T, F: FnOnce(&mut State<H>) -> T>(&mut self, callback: F) -> (r: T)
        requires
            old(self).wf(),
            forall|s: &mut State<H>| #[trigger] callback.requires((s,)),
        ensures
            final(self).wf(),
            final(self).base() == old(self).base(),
            final(self).view() == old(self).view(),
            exists|s: &mut State<H>| #[trigger] callback.ensures((s,), r),
    {
        proof { old(self).lemma_view_len(); }
        let saved_base = self.base;
        let frame = self.stack.split_off(saved_base);
        let mut below: Vec<Slot> = Vec::new();
        std::mem::swap(&mut below, &mut self.stack);
        let mut kept = copy_slots(&frame);
        self.stack = frame;
        self.base = 0;
        let r = callback(self);
        below.append(&mut kept);
        self.stack = below;
        self.base = saved_base;
        proof {
            self.lemma_view_len();
            assert(self.view() =~= old(self).view());
        }
        r
    }
}

/// A copy of each slot of `s`.
fn copy_slots(s: &Vec<Slot>) -> (r: Vec<Slot>)
    ensures
        r@.len() == s@.len(),
        forall|i: int| 0 <= i < s@.len() ==> #[trigger] r@[i].view() == s@[i].view(),
{
    let mut r: Vec<Slot> = Vec::new();
    let mut i: usize = 0;
    while i < s.len()
        invariant
            0 <= i <= s@.len(),
            r@.len() == i,
            forall|j: int| 0 <= j < i ==> #[trigger] r@[j].view() == s@[j].view(),
        decreases s@.len() - i,
    {
        r.push(s[i].duplicate());
        i = i + 1;
    }
    r
}


/// `s` cut or filled up with nil to `n` data.
pub open spec fn adjusted(s: Seq<Datum>, n: nat) -> Seq<Datum> {
    Seq::new(n, |i: int| if i < s.len() { s[i] } else { Datum::Nil })
}

/// The data of a sequence of slots.
pub open spec fn slots_view(s: Seq<Slot>) -> Seq<Datum> {
    s.map_values(|x: Slot| x.view())
}

/// What a completed call leaves in place of the called value: the last `k`
/// slots of the callee's stack adjusted to `nresults` (all of them for
/// `LUA_MULTRET`), or one error string.
pub open spec fn call_outcome(res: Result<Index, Raise>, results: Seq<Datum>, fpos: int, nresults: Index) -> (ThreadStatus, Seq<Datum>) {
    match res {
        Ok(k) => if k < 0 || k > results.len() {
            (ThreadStatus::RuntimeError, seq![Datum::Str(failure_text(CallFailure::BadResultCount))])
        } else {
            let n: int = if nresults == LUA_MULTRET { k as int } else { nresults as int };
            if fpos + n > LUAI_MAXSTACK {
                (ThreadStatus::RuntimeError, seq![Datum::Str(failure_text(CallFailure::StackOverflow))])
            } else {
                (ThreadStatus::Success, adjusted(results.subrange(results.len() - k, results.len() as int), n as nat))
            }
        },
        Err(e) => (ThreadStatus::RuntimeError, seq![Datum::Str(raise_text(e))]),
    }
}

/// However many objects are pushed one after the other with the same type
/// token, all of them end up with the one behavior table cached for the
/// token, and at most one table is built for them all.
pub proof fn lemma_metatable_shared<H>(states: Seq<State<H>>, data: Seq<H>, key: u64)
    requires
        data.len() >= 1,
        states.len() == data.len() + 1,
        forall|i: int| 0 <= i < data.len() ==> #[trigger] states[i + 1].pushed_object(&states[i], data[i], Some(key)),
    ensures
        states.last().cached(key) is Some,
        forall|i: int| 0 <= i < data.len() ==>
            #[trigger] states.last().object_meta((states[i + 1].n_objects() - 1) as nat) == states.last().cached(key),
        states.last().n_tables() <= states[0].n_tables() + 1,
        forall|i: int| 0 <= i < states.len() ==> #[trigger] states[i].n_objects() <= states.last().n_objects(),
    decreases data.len(),
{
    let m = data.len() - 1;
    if m == 0 {
        assert(states[1].pushed_object(&states[0], data[0], Some(key)));
    } else {
        let ps = states.subrange(0, m + 1);
        let pd = data.subrange(0, m);
        assert forall|i: int| 0 <= i < pd.len() implies #[trigger] ps[i + 1].pushed_object(&ps[i], pd[i], Some(key)) by {
            assert(ps[i + 1] == states[i + 1] && ps[i] == states[i] && pd[i] == data[i]);
        }
        lemma_metatable_shared(ps, pd, key);
        let prev = states[m];
        let last = states[m + 1];
        assert(ps.last() == prev);
        assert(last.pushed_object(&prev, data[m], Some(key)));
        last.lemma_kept_facts(&prev);
        assert forall|i: int| 0 <= i < data.len() implies
            #[trigger] last.object_meta((states[i + 1].n_objects() - 1) as nat) == last.cached(key) by {
            if i < m {
                assert(ps[i + 1] == states[i + 1]);
                assert(states[i + 1].n_objects() <= prev.n_objects());
            }
        }
        assert forall|i: int| 0 <= i < states.len() implies #[trigger] states[i].n_objects() <= last.n_objects() by {
            if i <= m {
                assert(ps[i] == states[i]);
            }
        }
    }
}

/// Two host types whose tokens a state meets for the first time get two
/// different behavior tables.
pub proof fn lemma_distinct_types<H>(s0: State<H>, s1: State<H>, s2: State<H>, k1: u64, k2: u64)
    requires
        k1 != k2,
        s0.cached(k1) is None,
        s0.cached(k2) is None,
        s1.metatable_set(&s0, k1),
        s2.metatable_set(&s1, k2),
    ensures
        s2.cached(k1) is Some,
        s2.cached(k2) is Some,
        s2.cached(k1) != s2.cached(k2),
{
}

/// A collection never finalizes an object that is still referenced, and an
/// object that a collection finalized stays finalized, its host value gone,
/// through every later collection: its destructor runs once.
pub proof fn lemma_finalized_once<H>(s0: State<H>, s1: State<H>, s2: State<H>, o: nat)
    requires
        s1.collected(&s0),
        s2.collected(&s1),
    ensures
        s0.live(o) && s0.referenced(o) ==> s1.live(o),
        s0.live(o) && !s1.live(o) ==> !s2.live(o) && s1.payload(o) is None && s2.payload(o) is None,
{
}

impl<H: Host> State<H> {
    /// Calls the value below the top `nargs` slots with those slots as its
    /// arguments, and replaces the value and its arguments with `nresults`
    /// results (all of them for `LUA_MULTRET`), filled up with nil. A
    /// failure of the callee, or a value that cannot be called, leaves one
    /// error string in their place instead. The callee runs on a stack of
    /// its own, so the slots below the called value are never touched.
    pub fn pcall(&mut self, nargs: Index, nresults: Index) -> (r: ThreadStatus)
        requires
            old(self).wf(),
            0 <= nargs < old(self).top(),
            nresults >= LUA_MULTRET,
            nresults >= 0 ==> old(self).view().len() - nargs - 1 + nresults <= LUAI_MAXSTACK,
        ensures
            final(self).wf(),
            final(self).base() == old(self).base(),
            final(self).view().len() >= old(self).view().len() - nargs - 1,
            final(self).view().subrange(0, old(self).view().len() - nargs - 1)
                == old(self).view().subrange(0, old(self).view().len() - nargs - 1),
            r == ThreadStatus::Success || r == ThreadStatus::RuntimeError,
            r == ThreadStatus::Success && nresults >= 0 ==> final(self).view().len() == old(self).view().len() - nargs - 1 + nresults,
            r == ThreadStatus::RuntimeError ==> final(self).view().len() == old(self).view().len() - nargs
                && final(self).view().last() is Str,
            !(old(self).at(-(nargs + 1)) is Function) ==> r == ThreadStatus::RuntimeError
                && final(self).view().last() == Datum::Str(call_error_text(type_of_datum(old(self).at(-(nargs + 1)))))
                && final(self).same_heap(old(self)),
            old(self).at(-(nargs + 1)) matches Datum::Function(o) && old(self).payload(o) is None
                ==> r == ThreadStatus::RuntimeError && final(self).same_heap(old(self)),
            old(self).at(-(nargs + 1)) is Function && old(self).depth() >= LUAI_MAXCCALLS
                ==> r == ThreadStatus::RuntimeError && final(self).same_heap(old(self))
                && final(self).view().last() == Datum::Str(failure_text(CallFailure::TooDeep)),
            old(self).at(-(nargs + 1)) matches Datum::Function(o) && old(self).depth() < LUAI_MAXCCALLS
                && old(self).payload(o) is None
                ==> final(self).view().last() == Datum::Str(failure_text(CallFailure::Unavailable)),
            old(self).at(-(nargs + 1)) matches Datum::Function(o) && old(self).depth() < LUAI_MAXCCALLS
                && old(self).payload(o) is Some
                ==> exists|res: Result<Index, Raise>, results: Seq<Datum>|
                    #[trigger] call_outcome(res, results, old(self).view().len() - nargs - 1, nresults).0 == r
                    && final(self).view() == old(self).view().subrange(0, old(self).view().len() - nargs - 1)
                        + call_outcome(res, results, old(self).view().len() - nargs - 1, nresults).1,
    {
        proof { old(self).lemma_view_len(); }
        let len = self.stack.len();
        let fpos: usize = len - (nargs as usize) - 1;
        proof { assert(old(self).pos(-(nargs + 1)) == Some(fpos as int)); }
        let callee: Option<usize> = match &self.stack[fpos] {
            Slot::Function(o) => Some(*o),
            _ => None,
        };
        if callee.is_none() {
            let t = self.stack[fpos].type_of();
            let msg = call_error_message(t);
            let st = self.fail(fpos, msg);
            proof { assert(self.view().last() == Datum::Str(msg@)); }
            return st;
        }
        let o = callee.unwrap();
        if self.depth >= LUAI_MAXCCALLS {
            let msg = failure_message(CallFailure::TooDeep);
            let ghost m = msg@;
            let st = self.fail(fpos, msg);
            proof { assert(self.view().last() == Datum::Str(m)); }
            return st;
        }
        if o >= self.objects.len() || self.objects[o].data.is_none() {
            let msg = failure_message(CallFailure::Unavailable);
            let ghost m = msg@;
            let st = self.fail(fpos, msg);
            proof { assert(self.view().last() == Datum::Str(m)); }
            return st;
        }
        let mut taken: Option<H> = None;
        if o < self.objects.len() {
            let mut ob = Object { data: None, meta: None, live: false };
            std::mem::swap(&mut ob, &mut self.objects[o]);
            taken = ob.data;
            ob.data = None;
            std::mem::swap(&mut ob, &mut self.objects[o]);
        }
        let mut h = match taken {
            Some(h) => h,
            None => { return self.fail(fpos, failure_message(CallFailure::Unavailable)); },
        };
        let mut stack = self.stack.split_off(fpos + 1);
        std::mem::swap(&mut stack, &mut self.stack);
        let ghost caller = stack@;
        let saved_base = self.base;
        let saved_depth = self.depth;
        self.base = 0;
        self.depth = saved_depth + 1;
        let res = h.invoke(self);
        if o < self.objects.len() {
            let mut ob = Object { data: None, meta: None, live: false };
            std::mem::swap(&mut ob, &mut self.objects[o]);
            ob.data = Some(h);
            std::mem::swap(&mut ob, &mut self.objects[o]);
        }
        std::mem::swap(&mut stack, &mut self.stack);
        self.base = saved_base;
        self.depth = saved_depth;
        proof {
            assert(self.stack@ == caller);
            self.lemma_view_len();
            assert(self.view().subrange(0, fpos as int) =~= old(self).view().subrange(0, fpos as int));
        }
        let ghost rv = slots_view(stack@);
        let ghost rs = res;
        let st = self.complete_call(fpos, res, &stack, nresults);
        proof {
            assert(call_outcome(rs, rv, fpos as int, nresults).0 == st);
        }
        st
    }
}

} // verus!
