//! The Lua value tree: `nil`, booleans, numbers, byte strings and
//! tables, together with its mathematical model.
//!
//! Strings keep the parser's zero-copy discipline: a `LuaStr` either
//! borrows a range of the input buffer or owns its bytes.  The model
//! of a value abstracts that distinction away; equality of values is
//! equality of models.
#![allow(unused_imports)]
use vstd::prelude::*;
use vstd::utf8::{valid_utf8, decode_utf8, encode_utf8};
use vstd::string::StringSliceAdditionalSpecFns;
use crate::number::{LuaNumber, f64_is_nan_bits, f64_is_inf_bits, f64_is_finite_bits,
    int_to_f64_bits, MAX_F64_INTEGER, MIN_F64_INTEGER};

verus! {

/// A Lua string: an immutable sequence of bytes, either borrowed from
/// the parsed input or owned.
#[derive(Debug, Clone)]
pub enum LuaStr<'a> {
    /// A slice of the input buffer.
    Borrowed(&'a [u8]),
    /// An owned buffer, used where escape processing had to build new
    /// bytes.
    Owned(Vec<u8>),
}

impl<'a> View for LuaStr<'a> {
    type V = Seq<u8>;

    open spec fn view(&self) -> Seq<u8> {
        match self {
            LuaStr::Borrowed(s) => s@,
            LuaStr::Owned(v) => v@,
        }
    }
}

impl<'a> LuaStr<'a> {
    /// True when the bytes are a borrowed slice.
    pub open spec fn spec_is_borrowed(&self) -> bool {
        self matches LuaStr::Borrowed(_)
    }

    /// The bytes of the string.
    pub fn as_bytes(&self) -> (r: &[u8])
        ensures
            r@ == self@,
    {
        match self {
            LuaStr::Borrowed(s) => s,
            LuaStr::Owned(v) => v.as_slice(),
        }
    }

    /// The length of the string in bytes.
    pub fn len(&self) -> (r: usize)
        ensures
            r == self@.len(),
    {
        match self {
            LuaStr::Borrowed(s) => s.len(),
            LuaStr::Owned(v) => v.len(),
        }
    }
}

/// The mathematical model of a Lua value: the tree with strings as
/// byte sequences, regardless of how they are stored.
pub enum ValModel {
    /// `nil`.
    Nil,
    /// A boolean.
    Bool(bool),
    /// A number.
    Num(LuaNumber),
    /// A byte string.
    Str(Seq<u8>),
    /// A table: the entries in source order.
    Table(Seq<EntryModel>),
}

/// The model of a table entry, keeping how the field was spelled.
pub enum EntryModel {
    /// The `[key] = value` form.
    Keyed(ValModel, ValModel),
    /// The `name = value` form; the name is identifier-valid.
    Named(Seq<u8>, ValModel),
    /// A bare value, implicitly keyed by consecutive integers.
    Positional(ValModel),
}

/// Basic Lua data types: `nil`, boolean, string, number, table.
#[derive(Debug)]
pub enum LuaValue<'a> {
    /// Nil value.
    Nil,
    /// Boolean, either `true` or `false`.
    Boolean(bool),
    /// Number, integer or floating point.
    Number(LuaNumber),
    /// String: a sequence of bytes with no declared encoding.
    String(LuaStr<'a>),
    /// Table: entries in source order, duplicate keys kept.
    Table(Vec<LuaTableEntry<'a>>),
}

/// A Lua table entry.
#[derive(Debug)]
pub enum LuaTableEntry<'a> {
    /// Table entry in the form `["foo"] = "bar"` or `[123] = "bar"`.
    KeyValue(LuaValue<'a>, LuaValue<'a>),
    /// Table entry in the form `foo = "bar"`.
    NameValue(LuaStr<'a>, LuaValue<'a>),
    /// Bare table entry without a key.
    Value(LuaValue<'a>),
    /// Bare numeric table entry, avoiding an allocation.
    NumberValue(LuaNumber),
    /// Bare boolean table entry, avoiding an allocation.
    BooleanValue(bool),
    /// Bare `nil` table entry, avoiding an allocation.
    NilValue,
}

/// The models of a list of table entries.
pub open spec fn ents_model(ts: Seq<LuaTableEntry>) -> Seq<EntryModel> {
    Seq::new(
        ts.len(),
        |i: int|
            if 0 <= i < ts.len() {
                entry_model(ts[i])
            } else {
                EntryModel::Positional(ValModel::Nil)
            },
    )
}

/// The model of a value.
pub open spec fn val_model(v: LuaValue) -> ValModel
    decreases v,
    via val_model_dec
{
    match v {
        LuaValue::Nil => ValModel::Nil,
        LuaValue::Boolean(b) => ValModel::Bool(b),
        LuaValue::Number(n) => ValModel::Num(n),
        LuaValue::String(s) => ValModel::Str(s@),
        LuaValue::Table(ts) => ValModel::Table(
            Seq::new(
                ts@.len(),
                |i: int|
                    if 0 <= i < ts@.len() {
                        entry_model(ts@[i])
                    } else {
                        EntryModel::Positional(ValModel::Nil)
                    },
            ),
        ),
    }
}

/// A table's model is the model of its entry list.
pub proof fn lemma_val_model_table(ts: Vec<LuaTableEntry>)
    ensures
        val_model(LuaValue::Table(ts)) == ValModel::Table(ents_model(ts@)),
{
    assert(val_model(LuaValue::Table(ts))->Table_0 =~= ents_model(ts@));
}

#[via_fn]
proof fn val_model_dec(v: LuaValue) {
    broadcast use vstd::std_specs::vec::group_vec_axioms;

    if let LuaValue::Table(ts) = v {
        assert forall|i: int| 0 <= i < ts@.len() implies decreases_to!(v => ts@[i]) by {
            assert(decreases_to!(v => ts));
            assert(decreases_to!(ts => ts[i]));
        }
    }
}

/// The model of a table entry; the keyless specialisations model as
/// positional entries.
pub open spec fn entry_model(e: LuaTableEntry) -> EntryModel
    decreases e,
{
    match e {
        LuaTableEntry::KeyValue(k, v) => EntryModel::Keyed(val_model(k), val_model(v)),
        LuaTableEntry::NameValue(n, v) => EntryModel::Named(n@, val_model(v)),
        LuaTableEntry::Value(v) => EntryModel::Positional(val_model(v)),
        LuaTableEntry::NumberValue(n) => EntryModel::Positional(ValModel::Num(n)),
        LuaTableEntry::BooleanValue(b) => EntryModel::Positional(ValModel::Bool(b)),
        LuaTableEntry::NilValue => EntryModel::Positional(ValModel::Nil),
    }
}

impl<'a> View for LuaValue<'a> {
    type V = ValModel;

    open spec fn view(&self) -> ValModel {
        val_model(*self)
    }
}

impl<'a> View for LuaTableEntry<'a> {
    type V = EntryModel;

    open spec fn view(&self) -> EntryModel {
        entry_model(*self)
    }
}

/// Model-level equality of values: structural, with table entries
/// compared by `entry_model_eq`.
pub open spec fn val_model_eq(a: ValModel, b: ValModel) -> bool
    decreases a,
    via val_model_eq_dec
{
    match (a, b) {
        (ValModel::Nil, ValModel::Nil) => true,
        (ValModel::Bool(x), ValModel::Bool(y)) => x == y,
        (ValModel::Num(x), ValModel::Num(y)) => x == y,
        (ValModel::Str(x), ValModel::Str(y)) => x == y,
        (ValModel::Table(xs), ValModel::Table(ys)) => xs.len() == ys.len() && (forall|i: int|
            0 <= i < xs.len() ==> entry_model_eq(#[trigger] xs[i], ys[i])),
        _ => false,
    }
}

#[via_fn]
proof fn val_model_eq_dec(a: ValModel, b: ValModel) {
    broadcast use vstd::seq::group_seq_axioms;

    if let ValModel::Table(xs) = a {
        assert forall|i: int| 0 <= i < xs.len() implies decreases_to!(a => xs[i]) by {
            assert(decreases_to!(a => xs));
            assert(decreases_to!(xs => xs[i]));
        }
    }
}

/// Model-level equality of table entries: a `name = v` entry equals a
/// `["name"] = v` entry; the spellings otherwise compare structurally.
pub open spec fn entry_model_eq(a: EntryModel, b: EntryModel) -> bool
    decreases a,
{
    match (a, b) {
        (EntryModel::Keyed(ka, va), EntryModel::Keyed(kb, vb)) => val_model_eq(ka, kb)
            && val_model_eq(va, vb),
        (EntryModel::Named(na, va), EntryModel::Named(nb, vb)) => na == nb && val_model_eq(va, vb),
        (EntryModel::Keyed(ka, va), EntryModel::Named(nb, vb)) => (ka matches ValModel::Str(sa)
            && sa == nb) && val_model_eq(va, vb),
        (EntryModel::Named(na, va), EntryModel::Keyed(kb, vb)) => (kb matches ValModel::Str(sb)
            && na == sb) && val_model_eq(va, vb),
        (EntryModel::Positional(va), EntryModel::Positional(vb)) => val_model_eq(va, vb),
        _ => false,
    }
}

/// Byte-wise equality of two Lua strings, regardless of storage.
pub fn lua_str_eq(a: &LuaStr, b: &LuaStr) -> (r: bool)
    ensures
        r == (a@ == b@),
{
    crate::bytes_eq(a.as_bytes(), b.as_bytes())
}

/// Equality of two values at the model level.
pub fn lua_val_eq(a: &LuaValue, b: &LuaValue) -> (r: bool)
    ensures
        r == val_model_eq(a@, b@),
    decreases *a,
{
    let r: bool = match a {
        LuaValue::Nil => {
            match b {
                LuaValue::Nil => {
                    proof {
                        assert(val_model_eq(a@, b@));
                    }
                    true
                },
                _ => {
                    proof {
                        assert(!(b@ is Nil));
                        assert(!val_model_eq(a@, b@));
                    }
                    false
                },
            }
        },
        LuaValue::Boolean(x) => {
            match b {
                LuaValue::Boolean(y) => {
                    let q = *x == *y;
                    proof {
                        assert(q == val_model_eq(a@, b@));
                    }
                    q
                },
                _ => {
                    proof {
                        assert(!val_model_eq(a@, b@));
                    }
                    false
                },
            }
        },
        LuaValue::Number(x) => {
            match b {
                LuaValue::Number(y) => {
                    let q = *x == *y;
                    proof {
                        assert(q == val_model_eq(a@, b@));
                    }
                    q
                },
                _ => {
                    proof {
                        assert(!val_model_eq(a@, b@));
                    }
                    false
                },
            }
        },
        LuaValue::String(x) => {
            match b {
                LuaValue::String(y) => {
                    let q = lua_str_eq(x, y);
                    proof {
                        assert(q == val_model_eq(a@, b@));
                    }
                    q
                },
                _ => {
                    proof {
                        assert(!val_model_eq(a@, b@));
                    }
                    false
                },
            }
        },
        LuaValue::Table(xs) => {
            match b {
                LuaValue::Table(ys) => {
                    proof {
                        broadcast use vstd::std_specs::vec::group_vec_axioms;

                        assert(decreases_to!(*a => *xs));
                    }
                    let r = lua_entries_eq(xs, ys);
                    proof {
                        let xm = val_model(*a)->Table_0;
                        let ym = val_model(*b)->Table_0;
                        assert(xm.len() == xs@.len());
                        assert(ym.len() == ys@.len());
                        assert(forall|j: int| 0 <= j < xs@.len() ==> #[trigger] xm[j]
                            == entry_model(xs@[j]));
                        assert(forall|j: int| 0 <= j < ys@.len() ==> #[trigger] ym[j]
                            == entry_model(ys@[j]));
                        if r {
                            assert forall|i: int| 0 <= i < xm.len() implies entry_model_eq(
                                #[trigger] xm[i],
                                ym[i],
                            ) by {
                                assert(entry_model_eq(entry_model(xs@[i]), entry_model(ys@[i])));
                            }
                            assert(val_model_eq(a@, b@));
                        } else {
                            if xs@.len() == ys@.len() {
                                let j = choose|j: int|
                                    0 <= j < xs@.len() && !entry_model_eq(
                                        #[trigger] entry_model(xs@[j]),
                                        entry_model(ys@[j]),
                                    );
                                assert(!entry_model_eq(xm[j], ym[j]));
                            }
                            assert(!val_model_eq(a@, b@));
                        }
                    }
                    r
                },
                _ => {
                    proof {
                        assert(!val_model_eq(a@, b@));
                    }
                    false
                },
            }
        },
    };
    proof {
        assert(r == val_model_eq(a@, b@)) by {
            reveal_with_fuel(val_model_eq, 2);
            reveal_with_fuel(val_model, 2);
            reveal_with_fuel(entry_model, 2);
        }
    }
    r
}

/// Element-wise model equality of two entry lists.
pub fn lua_entries_eq(xs: &Vec<LuaTableEntry>, ys: &Vec<LuaTableEntry>) -> (r: bool)
    ensures
        r == (xs@.len() == ys@.len() && (forall|j: int|
            0 <= j < xs@.len() ==> entry_model_eq(
                #[trigger] entry_model(xs@[j]),
                entry_model(ys@[j]),
            ))),
    decreases *xs,
{
    if xs.len() != ys.len() {
        return false;
    }
    let n: usize = xs.len();
    let mut i: usize = 0;
    while i < n
        invariant
            n == xs@.len() == ys@.len(),
            0 <= i <= n,
            forall|j: int| 0 <= j < i ==> entry_model_eq(
                #[trigger] entry_model(xs@[j]),
                entry_model(ys@[j]),
            ),
        decreases n - i,
    {
        proof {
            broadcast use vstd::std_specs::vec::group_vec_axioms;

            assert(decreases_to!(*xs => (*xs)[i as int]));
        }
        if !lua_entry_eq(&xs[i], &ys[i]) {
            return false;
        }
        i += 1;
    }
    true
}

/// Equality of two table entries at the model level: `name = v`
/// equals `["name"] = v`, and each keyless specialisation equals the
/// plain bare-value spelling of the same value.
pub fn lua_entry_eq(a: &LuaTableEntry, b: &LuaTableEntry) -> (r: bool)
    ensures
        r == entry_model_eq(a@, b@),
    decreases *a,
{
    match (a, b) {
        (LuaTableEntry::KeyValue(k1, v1), LuaTableEntry::KeyValue(k2, v2)) => lua_val_eq(k1, k2)
            && lua_val_eq(v1, v2),
        (LuaTableEntry::NameValue(n1, v1), LuaTableEntry::NameValue(n2, v2)) => lua_str_eq(n1, n2)
            && lua_val_eq(v1, v2),
        (LuaTableEntry::KeyValue(k1, v1), LuaTableEntry::NameValue(n2, v2)) => {
            match k1 {
                LuaValue::String(s1) => lua_str_eq(s1, n2) && lua_val_eq(v1, v2),
                _ => false,
            }
        },
        (LuaTableEntry::NameValue(n1, v1), LuaTableEntry::KeyValue(k2, v2)) => {
            match k2 {
                LuaValue::String(s2) => lua_str_eq(n1, s2) && lua_val_eq(v1, v2),
                _ => false,
            }
        },
        (LuaTableEntry::Value(v1), LuaTableEntry::Value(v2)) => lua_val_eq(v1, v2),
        (LuaTableEntry::Value(v1), LuaTableEntry::NumberValue(n2)) => {
            match v1 {
                LuaValue::Number(n1) => n1 == n2,
                _ => false,
            }
        },
        (LuaTableEntry::NumberValue(n1), LuaTableEntry::Value(v2)) => {
            match v2 {
                LuaValue::Number(n2) => n1 == n2,
                _ => false,
            }
        },
        (LuaTableEntry::Value(v1), LuaTableEntry::BooleanValue(b2)) => {
            match v1 {
                LuaValue::Boolean(b1) => b1 == b2,
                _ => false,
            }
        },
        (LuaTableEntry::BooleanValue(b1), LuaTableEntry::Value(v2)) => {
            match v2 {
                LuaValue::Boolean(b2) => b1 == b2,
                _ => false,
            }
        },
        (LuaTableEntry::Value(v1), LuaTableEntry::NilValue) => matches!(v1, LuaValue::Nil),
        (LuaTableEntry::NilValue, LuaTableEntry::Value(v2)) => matches!(v2, LuaValue::Nil),
        (LuaTableEntry::NumberValue(n1), LuaTableEntry::NumberValue(n2)) => n1 == n2,
        (LuaTableEntry::BooleanValue(b1), LuaTableEntry::BooleanValue(b2)) => b1 == b2,
        (LuaTableEntry::NilValue, LuaTableEntry::NilValue) => true,
        _ => false,
    }
}

impl<'a> PartialEq for LuaValue<'a> {
    fn eq(&self, other: &Self) -> (r: bool)
        ensures
            r == val_model_eq(self@, other@),
    {
        lua_val_eq(self, other)
    }
}

impl<'a> vstd::std_specs::cmp::PartialEqSpecImpl for LuaValue<'a> {
    open spec fn obeys_eq_spec() -> bool {
        true
    }

    open spec fn eq_spec(&self, other: &Self) -> bool {
        val_model_eq(self@, other@)
    }
}

impl<'a> PartialEq for LuaTableEntry<'a> {
    fn eq(&self, other: &Self) -> (r: bool)
        ensures
            r == entry_model_eq(self@, other@),
    {
        lua_entry_eq(self, other)
    }
}

impl<'a> vstd::std_specs::cmp::PartialEqSpecImpl for LuaTableEntry<'a> {
    open spec fn obeys_eq_spec() -> bool {
        true
    }

    open spec fn eq_spec(&self, other: &Self) -> bool {
        entry_model_eq(self@, other@)
    }
}

impl<'a> PartialEq for LuaStr<'a> {
    fn eq(&self, other: &Self) -> (r: bool)
        ensures
            r == (self@ == other@),
    {
        lua_str_eq(self, other)
    }
}

impl<'a> vstd::std_specs::cmp::PartialEqSpecImpl for LuaStr<'a> {
    open spec fn obeys_eq_spec() -> bool {
        true
    }

    open spec fn eq_spec(&self, other: &Self) -> bool {
        self@ == other@
    }
}

/// A copy of a Lua string with the same bytes; a borrowed string
/// stays borrowed.
pub fn clone_str<'a>(s: &LuaStr<'a>) -> (r: LuaStr<'a>)
    ensures
        r@ == s@,
        r.spec_is_borrowed() == s.spec_is_borrowed(),
{
    match s {
        LuaStr::Borrowed(b) => LuaStr::Borrowed(b),
        LuaStr::Owned(v) => {
            let mut o: Vec<u8> = Vec::new();
            let n: usize = v.len();
            let mut i: usize = 0;
            while i < n
                invariant
                    n == v@.len(),
                    0 <= i <= n,
                    o@ == v@.take(i as int),
                decreases n - i,
            {
                o.push(v[i]);
                proof {
                    assert(o@ =~= v@.take(i as int + 1));
                }
                i += 1;
            }
            proof {
                assert(v@.take(n as int) =~= v@);
            }
            LuaStr::Owned(o)
        },
    }
}

/// A copy of a value with the same model.
pub fn clone_value<'a>(v: &LuaValue<'a>) -> (r: LuaValue<'a>)
    ensures
        r@ == v@,
    decreases *v,
{
    match v {
        LuaValue::Nil => LuaValue::Nil,
        LuaValue::Boolean(b) => LuaValue::Boolean(*b),
        LuaValue::Number(n) => LuaValue::Number(*n),
        LuaValue::String(s) => LuaValue::String(clone_str(s)),
        LuaValue::Table(ts) => {
            proof {
                broadcast use vstd::std_specs::vec::group_vec_axioms;

                assert(decreases_to!(*v => *ts));
            }
            let o = clone_entries(ts);
            let r = LuaValue::Table(o);
            proof {
                let rm = val_model(r)->Table_0;
                let vm = val_model(*v)->Table_0;
                assert(rm.len() == vm.len());
                assert forall|j: int| 0 <= j < rm.len() implies rm[j] == vm[j] by {
                    assert(rm[j] == entry_model(o@[j]));
                    assert(vm[j] == entry_model(ts@[j]));
                }
                assert(rm =~= vm);
            }
            r
        },
    }
}

/// A copy of an entry list, entry for entry.
pub fn clone_entries<'a>(ts: &Vec<LuaTableEntry<'a>>) -> (o: Vec<LuaTableEntry<'a>>)
    ensures
        o@.len() == ts@.len(),
        forall|j: int| 0 <= j < ts@.len() ==> #[trigger] entry_model(o@[j]) == entry_model(ts@[j]),
    decreases *ts,
{
    let n: usize = ts.len();
    let mut o: Vec<LuaTableEntry<'a>> = Vec::new();
    let mut i: usize = 0;
    while i < n
        invariant
            n == ts@.len(),
            0 <= i <= n,
            o@.len() == i,
            forall|j: int| 0 <= j < i ==> #[trigger] entry_model(o@[j]) == entry_model(ts@[j]),
        decreases n - i,
    {
        proof {
            broadcast use vstd::std_specs::vec::group_vec_axioms;

            assert(decreases_to!(*ts => (*ts)[i as int]));
        }
        let e = clone_entry(&ts[i]);
        o.push(e);
        i += 1;
    }
    o
}

/// A copy of a table entry with the same model.
pub fn clone_entry<'a>(e: &LuaTableEntry<'a>) -> (r: LuaTableEntry<'a>)
    ensures
        r@ == e@,
    decreases *e,
{
    match e {
        LuaTableEntry::KeyValue(k, v) => LuaTableEntry::KeyValue(clone_value(k), clone_value(v)),
        LuaTableEntry::NameValue(n, v) => LuaTableEntry::NameValue(clone_str(n), clone_value(v)),
        LuaTableEntry::Value(v) => LuaTableEntry::Value(clone_value(v)),
        LuaTableEntry::NumberValue(n) => LuaTableEntry::NumberValue(*n),
        LuaTableEntry::BooleanValue(b) => LuaTableEntry::BooleanValue(*b),
        LuaTableEntry::NilValue => LuaTableEntry::NilValue,
    }
}


/// A text string: UTF-8 characters, borrowed or owned, mirroring the
/// storage discipline of `LuaStr`.
#[derive(Debug, Clone)]
pub enum LuaText<'a> {
    /// A borrowed string slice.
    Borrowed(&'a str),
    /// An owned string.
    Owned(String),
}

impl<'a> View for LuaText<'a> {
    type V = Seq<char>;

    open spec fn view(&self) -> Seq<char> {
        match self {
            LuaText::Borrowed(t) => t@,
            LuaText::Owned(o) => o@,
        }
    }
}

impl<'a> LuaText<'a> {
    /// True when the characters are a borrowed slice.
    pub open spec fn spec_is_borrowed(&self) -> bool {
        self matches LuaText::Borrowed(_)
    }
}

/// Relies on `str::from_utf8`: it succeeds exactly on valid UTF-8,
/// and the returned slice holds the same bytes, decoded.
#[verifier::external_body]
pub(crate) fn bytes_as_str(v: &[u8]) -> (r: Option<&str>)
    ensures
        r matches Some(t) ==> valid_utf8(v@) && t@ == decode_utf8(v@) && t.spec_bytes() == v@,
        r is None ==> !valid_utf8(v@),
{
    core::str::from_utf8(v).ok()
}

/// Relies on `String::from_utf8`, which succeeds exactly on valid
/// UTF-8 and keeps the bytes.
#[verifier::external_body]
pub(crate) fn vec_into_string(v: Vec<u8>) -> (r: String)
    requires
        valid_utf8(v@),
    ensures
        r@ == decode_utf8(v@),
        encode_utf8(r@) == v@,
{
    match String::from_utf8(v) {
        Ok(t) => t,
        Err(_) => String::new(),
    }
}

/// What lossy UTF-8 decoding yields: the decoded characters, with
/// every ill-formed sequence replaced.
pub uninterp spec fn lossy_utf8(s: Seq<u8>) -> Seq<char>;

/// Relies on `String::from_utf8_lossy`: a deterministic function of
/// the bytes that is the plain decoding whenever the bytes are valid
/// UTF-8.
#[verifier::external_body]
pub(crate) fn bytes_to_string_lossy(v: &[u8]) -> (r: String)
    ensures
        r@ == lossy_utf8(v@),
        valid_utf8(v@) ==> r@ == decode_utf8(v@),
{
    String::from_utf8_lossy(v).into_owned()
}

/// Relies on `str::to_owned` keeping the characters.
#[verifier::external_body]
pub(crate) fn str_to_owned(t: &str) -> (r: String)
    ensures
        r@ == t@,
{
    t.to_owned()
}

/// Relies on `String::into_bytes`, the inverse of `String::from_utf8`.
#[verifier::external_body]
pub(crate) fn string_into_bytes(t: String) -> (r: Vec<u8>)
    ensures
        r@ == encode_utf8(t@),
{
    t.into_bytes()
}

/// Attempts to convert a byte string into a text string while
/// avoiding copying; an invalid string comes back unchanged.
pub fn from_utf8_cow<'a>(v: LuaStr<'a>) -> (r: Result<LuaText<'a>, LuaStr<'a>>)
    ensures
        r matches Ok(t) ==> valid_utf8(v@) && t@ == decode_utf8(v@) && t.spec_is_borrowed()
            == v.spec_is_borrowed(),
        r matches Err(w) ==> !valid_utf8(v@) && w@ == v@,
{
    match v {
        LuaStr::Borrowed(b) => match bytes_as_str(b) {
            Some(t) => Ok(LuaText::Borrowed(t)),
            None => Err(LuaStr::Borrowed(b)),
        },
        LuaStr::Owned(o) => {
            if bytes_as_str(o.as_slice()).is_some() {
                Ok(LuaText::Owned(vec_into_string(o)))
            } else {
                Err(LuaStr::Owned(o))
            }
        },
    }
}

/// Converts a byte string into text, replacing ill-formed sequences;
/// a borrowed valid string stays borrowed.
pub fn from_utf8_cow_lossy<'a>(v: LuaStr<'a>) -> (r: LuaText<'a>)
    ensures
        valid_utf8(v@) ==> r@ == decode_utf8(v@),
        !valid_utf8(v@) ==> r@ == lossy_utf8(v@),
{
    match v {
        LuaStr::Borrowed(b) => match bytes_as_str(b) {
            Some(t) => LuaText::Borrowed(t),
            None => LuaText::Owned(bytes_to_string_lossy(b)),
        },
        LuaStr::Owned(o) => {
            match bytes_as_str(o.as_slice()) {
                Some(_) => LuaText::Owned(vec_into_string(o)),
                None => LuaText::Owned(bytes_to_string_lossy(o.as_slice())),
            }
        },
    }
}

/// Converts a text string into a byte string without copying.
pub fn to_utf8_cow<'a>(v: LuaText<'a>) -> (r: LuaStr<'a>)
    ensures
        r@ == encode_utf8(v@),
        r.spec_is_borrowed() == (v matches LuaText::Borrowed(_)),
{
    match v {
        LuaText::Borrowed(t) => LuaStr::Borrowed(t.as_bytes()),
        LuaText::Owned(o) => LuaStr::Owned(string_into_bytes(o)),
    }
}

/// A one-byte string holding `i`.
pub fn slice_of_byte(i: u8) -> (r: LuaStr<'static>)
    ensures
        r@ == seq![i],
{
    let r = LuaStr::Owned(vec![i]);
    proof {
        assert(r@ =~= seq![i]);
    }
    r
}

impl<'a> LuaValue<'a> {
    /// Make a value from an `i64`.
    pub fn integer(v: i64) -> (r: Self)
        ensures
            r@ == ValModel::Num(LuaNumber::Integer(v)),
    {
        LuaValue::Number(LuaNumber::Integer(v))
    }

    /// Make a value from the bit pattern of a binary64 float.
    pub fn float(v: u64) -> (r: Self)
        ensures
            r@ == ValModel::Num(LuaNumber::Float(v)),
    {
        LuaValue::Number(LuaNumber::Float(v))
    }

    /// Returns `true` for a number that is NaN; other values return
    /// `false`.
    pub fn is_nan(&self) -> (r: bool)
        ensures
            r == (self@ matches ValModel::Num(LuaNumber::Float(b)) && f64_is_nan_bits(b)),
    {
        match self {
            LuaValue::Number(n) => n.is_nan(),
            _ => false,
        }
    }

    /// Returns `true` for a finite number; other values return
    /// `false`.
    pub fn is_finite(&self) -> (r: bool)
        ensures
            r == (self@ matches ValModel::Num(n) && (n matches LuaNumber::Integer(_) || (n
                matches LuaNumber::Float(b) && f64_is_finite_bits(b)))),
    {
        match self {
            LuaValue::Number(n) => n.is_finite(),
            _ => false,
        }
    }

    /// Returns `true` for an infinite number; other values return
    /// `false`.
    pub fn is_infinite(&self) -> (r: bool)
        ensures
            r == (self@ matches ValModel::Num(LuaNumber::Float(b))
                && crate::number::f64_is_inf_bits(b)),
    {
        match self {
            LuaValue::Number(n) => n.is_infinite(),
            _ => false,
        }
    }

    /// Returns `true` iff the value is a string whose bytes borrow
    /// from the parsed input.
    pub fn is_borrowed(&self) -> (r: bool)
        ensures
            r == (self matches LuaValue::String(s) && s.spec_is_borrowed()),
    {
        match self {
            LuaValue::String(LuaStr::Borrowed(_)) => true,
            _ => false,
        }
    }

    /// The bytes of a string value.
    pub fn as_bytes(&self) -> (r: Option<&[u8]>)
        ensures
            r matches Some(b) ==> self@ matches ValModel::Str(bs) && b@ == bs,
            r is None ==> !(self@ is Str),
    {
        match self {
            LuaValue::String(s) => Some(s.as_bytes()),
            _ => None,
        }
    }

    /// The characters of a string value holding valid UTF-8.
    pub fn as_str(&self) -> (r: Option<&str>)
        ensures
            r matches Some(t) ==> self@ matches ValModel::Str(bs) && valid_utf8(bs) && t@
                == decode_utf8(bs),
            r is None ==> !(self@ matches ValModel::Str(bs) && valid_utf8(bs)),
    {
        match self {
            LuaValue::String(s) => bytes_as_str(s.as_bytes()),
            _ => None,
        }
    }

    /// The characters of a string value, ill-formed sequences
    /// replaced.
    pub fn as_str_lossy(&self) -> (r: Option<String>)
        ensures
            r matches Some(t) ==> self@ matches ValModel::Str(bs) && (valid_utf8(bs) ==> t@
                == decode_utf8(bs)) && (!valid_utf8(bs) ==> t@ == lossy_utf8(bs)),
            r is None ==> !(self@ is Str),
    {
        match self {
            LuaValue::String(s) => Some(bytes_to_string_lossy(s.as_bytes())),
            _ => None,
        }
    }

    /// The boolean of a boolean value.
    pub fn as_bool(&self) -> (r: Option<bool>)
        ensures
            r == (match self@ {
                ValModel::Bool(b) => Some(b),
                _ => None::<bool>,
            }),
    {
        match self {
            LuaValue::Boolean(b) => Some(*b),
            _ => None,
        }
    }

    /// The binary64 bits of a number value, exact for integers of
    /// magnitude at most 2^53 - 1.
    pub fn as_f64(&self) -> (r: Option<u64>)
        ensures
            r == (match self@ {
                ValModel::Num(n) => match n {
                    LuaNumber::Float(b) => Some(b),
                    LuaNumber::Integer(v) => if crate::number::MIN_F64_INTEGER <= v
                        <= crate::number::MAX_F64_INTEGER {
                        Some(int_to_f64_bits(v as int))
                    } else {
                        None::<u64>
                    },
                },
                _ => None::<u64>,
            }),
    {
        match self {
            LuaValue::Number(n) => n.as_f64(),
            _ => None,
        }
    }

    /// The `i64` of an integer number value.
    pub fn as_i64(&self) -> (r: Option<i64>)
        ensures
            r == (match self@ {
                ValModel::Num(LuaNumber::Integer(v)) => Some(v),
                _ => None::<i64>,
            }),
    {
        match self {
            LuaValue::Number(n) => n.as_i64(),
            _ => None,
        }
    }
}

impl<'a> LuaTableEntry<'a> {
    /// Returns `true` if the entry is implicitly keyed.
    pub fn implicit_key(&self) -> (r: bool)
        ensures
            r == (self@ is Positional),
    {
        match self {
            LuaTableEntry::BooleanValue(_) | LuaTableEntry::NilValue | LuaTableEntry::NumberValue(
                _,
            ) | LuaTableEntry::Value(_) => true,
            _ => false,
        }
    }

    /// The key of an explicitly keyed entry, cloned; a `name = value`
    /// entry yields its name as a string value.
    pub fn key(&self) -> (r: Option<LuaValue<'a>>)
        ensures
            r matches Some(k) ==> (match self@ {
                EntryModel::Keyed(km, _) => k@ == km,
                EntryModel::Named(nm, _) => k@ == ValModel::Str(nm),
                EntryModel::Positional(_) => false,
            }),
            r is None <==> self@ is Positional,
    {
        match self {
            LuaTableEntry::KeyValue(k, _) => Some(clone_value(k)),
            LuaTableEntry::NameValue(nm, _) => Some(LuaValue::String(clone_str(nm))),
            _ => None,
        }
    }

    /// A reference to the value of an explicitly spelled entry;
    /// the keyless specialisations return `None`.
    pub fn value(&self) -> (r: Option<&LuaValue<'a>>)
        ensures
            r matches Some(v) ==> (match self@ {
                EntryModel::Keyed(_, vm) => v@ == vm,
                EntryModel::Named(_, vm) => v@ == vm,
                EntryModel::Positional(vm) => v@ == vm,
            }),
    {
        match self {
            LuaTableEntry::KeyValue(_, v) => Some(v),
            LuaTableEntry::NameValue(_, v) => Some(v),
            LuaTableEntry::Value(v) => Some(v),
            _ => None,
        }
    }

    /// Moves the value out of the entry; the keyless specialisations
    /// are wrapped back into values.
    pub fn move_value(self) -> (r: LuaValue<'a>)
        ensures
            r@ == (match self@ {
                EntryModel::Keyed(_, vm) => vm,
                EntryModel::Named(_, vm) => vm,
                EntryModel::Positional(vm) => vm,
            }),
    {
        match self {
            LuaTableEntry::KeyValue(_, v) => v,
            LuaTableEntry::NameValue(_, v) => v,
            LuaTableEntry::Value(v) => v,
            LuaTableEntry::NumberValue(n) => LuaValue::Number(n),
            LuaTableEntry::BooleanValue(b) => LuaValue::Boolean(b),
            LuaTableEntry::NilValue => LuaValue::Nil,
        }
    }

    /// Moves a number value out of the entry, if it holds one.
    pub fn move_number_value(self) -> (r: Option<LuaNumber>)
        ensures
            r == (match self@ {
                EntryModel::Keyed(_, vm) => match vm {
                    ValModel::Num(n) => Some(n),
                    _ => None::<LuaNumber>,
                },
                EntryModel::Named(_, vm) => match vm {
                    ValModel::Num(n) => Some(n),
                    _ => None::<LuaNumber>,
                },
                EntryModel::Positional(vm) => match vm {
                    ValModel::Num(n) => Some(n),
                    _ => None::<LuaNumber>,
                },
            }),
    {
        match self.move_value() {
            LuaValue::Number(n) => Some(n),
            _ => None,
        }
    }

    /// Builds the entry for a byte-string key: a `name = value` entry
    /// when the key is a valid identifier, a `[key] = value` entry
    /// otherwise.
    pub fn from_bytes_key(k: LuaStr<'a>, v: LuaValue<'a>) -> (r: LuaTableEntry<'a>)
        ensures
            crate::is_lua_identifier(k@) ==> r@ == EntryModel::Named(k@, v@),
            !crate::is_lua_identifier(k@) ==> r@ == EntryModel::Keyed(ValModel::Str(k@), v@),
    {
        if crate::valid_lua_identifier(k.as_bytes()) {
            LuaTableEntry::NameValue(k, v)
        } else {
            LuaTableEntry::KeyValue(LuaValue::String(k), v)
        }
    }

    /// Builds the entry for an integer key: always a `[key] = value`
    /// entry.
    pub fn from_int_key(k: i64, v: LuaValue<'a>) -> (r: LuaTableEntry<'a>)
        ensures
            r@ == EntryModel::Keyed(ValModel::Num(LuaNumber::Integer(k)), v@),
    {
        LuaTableEntry::KeyValue(LuaValue::Number(LuaNumber::Integer(k)), v)
    }
}

} // verus!
