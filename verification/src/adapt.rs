//! The shape of an input buffer handed to the parsing entry points,
//! and the projection of a table onto a plain sequence.
#![allow(unused_imports)]
use vstd::prelude::*;
use crate::number::LuaNumber;
use crate::value::{LuaValue, LuaTableEntry, ValModel, EntryModel, val_model, entry_model,
    ents_model};

verus! {

/// The format of an input buffer: a bare value, a script of
/// assignments, or a `return` statement.
#[derive(Debug, PartialEq, Eq, Structural, Clone, Copy)]
pub enum LuaFormat {
    /// A bare Lua expression.
    Value,
    /// A Lua script containing only variable assignments.
    Script,
    /// A Lua `return` statement.
    Return,
}

impl Default for LuaFormat {
    /// The default format: a bare value.
    fn default() -> (r: Self)
        ensures
            r is Value,
    {
        LuaFormat::Value
    }
}

/// An entry a sequence target accepts: positional, or keyed by an
/// integer.
pub open spec fn seq_entry_ok(e: EntryModel) -> bool {
    match e {
        EntryModel::Positional(_) => true,
        EntryModel::Keyed(k, _) => k matches ValModel::Num(n) && n is Integer,
        EntryModel::Named(_, _) => false,
    }
}

/// All entries of a table are acceptable to a sequence target.
pub open spec fn seq_table_ok(es: Seq<EntryModel>) -> bool {
    forall|i: int| 0 <= i < es.len() ==> seq_entry_ok(#[trigger] es[i])
}

/// Every entry of the list is positional.
pub open spec fn all_positional(es: Seq<LuaTableEntry>) -> bool {
    forall|i: int| 0 <= i < es.len() ==> entry_model(#[trigger] es[i]) is Positional
}

/// Projects a table onto a sequence of values, as a sequence target
/// reads it: positional entries in order.  A table with an explicit
/// integer key is handled by `table_to_pairs` followed by a merge in
/// the caller; any other explicit key is refused.
pub fn table_to_sequence<'a>(entries: Vec<LuaTableEntry<'a>>) -> (r: Option<Vec<LuaValue<'a>>>)
    ensures
        r is Some <==> all_positional(entries@),
        r matches Some(vs) ==> vs@.len() == entries@.len() && (forall|i: int|
            0 <= i < entries@.len() ==> #[trigger] val_model(vs@[i])
                == entry_model(entries@[i])->Positional_0),
{
    let ghost es0 = entries@;
    let mut rest = entries;
    let mut out: Vec<LuaValue<'a>> = Vec::new();
    while rest.len() > 0
        invariant
            es0 == entries@,
            rest@.len() <= es0.len(),
            rest@ =~= es0.skip(out@.len() as int),
            out@.len() + rest@.len() == es0.len(),
            forall|i: int| 0 <= i < out@.len() ==> entry_model(#[trigger] es0[i]) is Positional,
            forall|i: int| 0 <= i < out@.len() ==> #[trigger] val_model(out@[i]) == entry_model(
                es0[i],
            )->Positional_0,
        decreases rest@.len(),
    {
        let ghost done = out@.len() as int;
        proof {
            assert(rest@[0] == es0[done]);
        }
        let e = rest.remove(0);
        proof {
            assert(rest@ =~= es0.skip(done + 1));
        }
        match e {
            LuaTableEntry::Value(v) => {
                out.push(v);
            },
            LuaTableEntry::NumberValue(n) => {
                out.push(LuaValue::Number(n));
            },
            LuaTableEntry::BooleanValue(b) => {
                out.push(LuaValue::Boolean(b));
            },
            LuaTableEntry::NilValue => {
                out.push(LuaValue::Nil);
            },
            _ => {
                proof {
                    assert(!all_positional(es0)) by {
                        assert(!(entry_model(es0[done]) is Positional));
                    }
                }
                return None;
            },
        }
    }
    proof {
        assert(all_positional(es0));
    }
    Some(out)
}

/// Numbers the entries of a table as a map target reads them:
/// positional entries get consecutive integer keys from 1, explicit
/// keys stay; later pairs override earlier ones at the consumer.
/// Positional numbering wraps after 2^63 - 1 entries.
pub fn table_to_pairs<'a>(entries: Vec<LuaTableEntry<'a>>) -> (r: Vec<(LuaValue<'a>, LuaValue<'a>)>)
    ensures
        r@.len() == entries@.len(),
{
    let total_exec: usize = entries.len();
    let ghost total = entries@.len();
    let mut rest = entries;
    let mut out: Vec<(LuaValue<'a>, LuaValue<'a>)> = Vec::new();
    let mut next: i128 = 1;
    while rest.len() > 0
        invariant
            total == total_exec,
            total == entries@.len(),
            out@.len() + rest@.len() == total,
            1 <= next,
            next <= 1 + total - rest@.len(),
        decreases rest@.len(),
    {
        let e = rest.remove(0);
        match e {
            LuaTableEntry::KeyValue(k, v) => {
                out.push((k, v));
            },
            LuaTableEntry::NameValue(nm, v) => {
                out.push((LuaValue::String(nm), v));
            },
            LuaTableEntry::Value(v) => {
                out.push((LuaValue::Number(LuaNumber::Integer(next as i64)), v));
                next = next + 1;
            },
            LuaTableEntry::NumberValue(n) => {
                out.push((LuaValue::Number(LuaNumber::Integer(next as i64)), LuaValue::Number(n)));
                next = next + 1;
            },
            LuaTableEntry::BooleanValue(b) => {
                out.push((LuaValue::Number(LuaNumber::Integer(next as i64)), LuaValue::Boolean(b)));
                next = next + 1;
            },
            LuaTableEntry::NilValue => {
                out.push((LuaValue::Number(LuaNumber::Integer(next as i64)), LuaValue::Nil));
                next = next + 1;
            },
        }
    }
    out
}

} // verus!
