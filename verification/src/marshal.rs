//! The value-marshaling bridge towards the embedded interpreter.
//!
//! Interpreter values cross the boundary as [`LuaData`] trees: plain
//! data the host runtime converts one-to-one from and to its own value
//! type. Encoding turns an array into a table keyed 1..n and an object
//! into a string-keyed table; decoding classifies a table as an array
//! exactly when its keys are the integers 1..n, and as an object
//! otherwise, keeping its string-keyed entries.

use vstd::prelude::*;

use crate::value::{Value, ValueView};

verus! {

/// A key of an interpreter table.
#[derive(Debug)]
pub enum LuaKey {
    Int(i64),
    Str(String),
}

/// An interpreter value as plain data.
#[derive(Debug)]
pub enum LuaData {
    Nil,
    Boolean(bool),
    /// An IEEE 754 double, as its bit pattern. Interpreter integers are
    /// narrowed to doubles by the host runtime on the way in.
    Number(u64),
    Str(String),
    Table(Vec<(LuaKey, LuaData)>),
}

/// The mathematical model of a table key.
pub enum LuaKeyView {
    Int(i64),
    Str(Seq<char>),
}

/// The mathematical model of an interpreter value.
pub enum LuaDataView {
    Nil,
    Boolean(bool),
    Number(u64),
    Str(Seq<char>),
    Table(Seq<(LuaKeyView, LuaDataView)>),
}

impl DeepView for LuaKey {
    type V = LuaKeyView;

    open spec fn deep_view(&self) -> LuaKeyView {
        match self {
            LuaKey::Int(i) => LuaKeyView::Int(*i),
            LuaKey::Str(s) => LuaKeyView::Str(s@),
        }
    }
}

/// The model of an interpreter value.
pub open spec fn lua_view_of(d: LuaData) -> LuaDataView
    decreases d,
{
    match d {
        LuaData::Nil => LuaDataView::Nil,
        LuaData::Boolean(b) => LuaDataView::Boolean(b),
        LuaData::Number(n) => LuaDataView::Number(n),
        LuaData::Str(s) => LuaDataView::Str(s@),
        LuaData::Table(entries) => LuaDataView::Table(lua_entry_views_of(entries@)),
    }
}

/// The models of a table entry list, entry by entry.
pub open spec fn lua_entry_views_of(s: Seq<(LuaKey, LuaData)>) -> Seq<(LuaKeyView, LuaDataView)>
    decreases s,
{
    if s.len() == 0 {
        Seq::empty()
    } else {
        lua_entry_views_of(s.drop_last()).push(
            (s.last().0.deep_view(), lua_view_of(s.last().1)),
        )
    }
}

/// `lua_entry_views_of` maps the entry list pointwise.
pub proof fn lemma_lua_entry_views_of(s: Seq<(LuaKey, LuaData)>)
    ensures
        lua_entry_views_of(s).len() == s.len(),
        forall|i: int|
            0 <= i < s.len() ==> lua_entry_views_of(s)[i] == ((#[trigger] s[i]).0.deep_view(),
            lua_view_of(s[i].1)),
    decreases s,
{
    if s.len() > 0 {
        lemma_lua_entry_views_of(s.drop_last());
        assert forall|i: int|
            0 <= i < s.len() implies lua_entry_views_of(s)[i] == ((#[trigger] s[i]).0.deep_view(),
        lua_view_of(s[i].1)) by {
            if i < s.len() - 1 {
                assert(s.drop_last()[i] == s[i]);
            }
        }
    }
}

impl DeepView for LuaData {
    type V = LuaDataView;

    open spec fn deep_view(&self) -> LuaDataView {
        lua_view_of(*self)
    }
}

/// The value at a field position.
pub open spec fn field_value(fields: Seq<(Seq<char>, ValueView)>, i: int) -> ValueView {
    fields[i].1
}

/// Every array node of a value is short enough to index with interpreter
/// integers.
pub open spec fn sizes_ok(v: ValueView) -> bool
    decreases v,
{
    match v {
        ValueView::Array(items) => items.len() < 0x7fff_ffff_ffff_ffff && forall|i: int|
            0 <= i < items.len() ==> sizes_ok(#[trigger] items[i]),
        ValueView::Object(fields) => forall|i: int|
            0 <= i < fields.len() ==> sizes_ok(#[trigger] field_value(fields, i)),
        _ => true,
    }
}


/// The encoding of a value as an interpreter value: arrays become tables
/// keyed 1..n in order, objects become string-keyed tables in order.
pub open spec fn spec_encode(v: ValueView) -> LuaDataView
    decreases v, 1int,
{
    match v {
        ValueView::Nil => LuaDataView::Nil,
        ValueView::Number(n) => LuaDataView::Number(n),
        ValueView::Text(s) => LuaDataView::Str(s),
        ValueView::Boolean(b) => LuaDataView::Boolean(b),
        ValueView::Array(items) => LuaDataView::Table(spec_encode_array(items)),
        ValueView::Object(fields) => LuaDataView::Table(spec_encode_object(fields)),
    }
}

/// Array elements as table entries keyed by position, 1-based.
pub open spec fn spec_encode_array(items: Seq<ValueView>) -> Seq<(LuaKeyView, LuaDataView)>
    decreases items, 0int,
{
    if items.len() == 0 {
        Seq::empty()
    } else {
        spec_encode_array(items.drop_last()).push(
            (LuaKeyView::Int(items.len() as i64), spec_encode(items.last())),
        )
    }
}

/// Object fields as string-keyed table entries, in order.
pub open spec fn spec_encode_object(
    fields: Seq<(Seq<char>, ValueView)>,
) -> Seq<(LuaKeyView, LuaDataView)>
    decreases fields, 0int,
{
    if fields.len() == 0 {
        Seq::empty()
    } else {
        spec_encode_object(fields.drop_last()).push(
            (LuaKeyView::Str(fields.last().0), spec_encode(fields.last().1)),
        )
    }
}

/// Whether a table's keys are exactly the integers 1..n: every key an
/// integer within 1..n, and no key twice.
pub open spec fn is_array_table(entries: Seq<(LuaKeyView, LuaDataView)>) -> bool {
    &&& entries.len() <= 0x7fff_ffff_ffff_ffff
    &&& forall|i: int|
        0 <= i < entries.len() ==> ((#[trigger] entries[i]).0 matches LuaKeyView::Int(k) && 1 <= k
            <= entries.len())
    &&& forall|i: int, j: int| 0 <= i < j < entries.len() ==> entries[i].0 != entries[j].0
}

/// The position of the entry keyed by the integer `k`.
pub open spec fn array_index_of(entries: Seq<(LuaKeyView, LuaDataView)>, k: int) -> int {
    choose|i: int| 0 <= i < entries.len() && entries[i].0 == LuaKeyView::Int(k as i64)
}

/// The decoding of an interpreter value: a table whose keys are exactly
/// 1..n becomes an array in key order; any other table becomes an object
/// from its string-keyed entries; integers become doubles.
pub open spec fn spec_decode(d: LuaDataView) -> ValueView
    decreases d, 2int,
{
    match d {
        LuaDataView::Nil => ValueView::Nil,
        LuaDataView::Boolean(b) => ValueView::Boolean(b),
        LuaDataView::Number(n) => ValueView::Number(n),
        LuaDataView::Str(s) => ValueView::Text(s),
        LuaDataView::Table(entries) => {
            if is_array_table(entries) {
                ValueView::Array(spec_decode_array(entries, entries.len() as int))
            } else {
                ValueView::Object(spec_decode_object(entries))
            }
        },
    }
}

/// The first `n` array slots of an array-shaped table, in key order.
pub open spec fn spec_decode_array(
    entries: Seq<(LuaKeyView, LuaDataView)>,
    n: int,
) -> Seq<ValueView>
    decreases entries, 1int, n,
{
    if n <= 0 {
        Seq::empty()
    } else {
        let slot = if exists|i: int|
            0 <= i < entries.len() && (#[trigger] entries[i]).0 == LuaKeyView::Int(n as i64) {
            spec_decode(entries[array_index_of(entries, n)].1)
        } else {
            ValueView::Nil
        };
        spec_decode_array(entries, n - 1).push(slot)
    }
}

/// The object fields of a table: its string-keyed entries, in order.
pub open spec fn spec_decode_object(
    entries: Seq<(LuaKeyView, LuaDataView)>,
) -> Seq<(Seq<char>, ValueView)>
    decreases entries, 1int, 0int,
{
    if entries.len() == 0 {
        Seq::empty()
    } else {
        let rest = spec_decode_object(entries.drop_last());
        match entries.last().0 {
            LuaKeyView::Str(s) => rest.push((s, spec_decode(entries.last().1))),
            LuaKeyView::Int(_) => rest,
        }
    }
}


/// Every object node of a value has at least one field. An empty object
/// encodes to an empty table, which decoding reads back as an empty
/// array: the documented collapse of the array/object ambiguity.
pub open spec fn objects_nonempty(v: ValueView) -> bool
    decreases v,
{
    match v {
        ValueView::Array(items) => forall|i: int|
            0 <= i < items.len() ==> objects_nonempty(#[trigger] items[i]),
        ValueView::Object(fields) => fields.len() >= 1 && forall|i: int|
            0 <= i < fields.len() ==> objects_nonempty(#[trigger] field_value(fields, i)),
        _ => true,
    }
}

/// The entries encoding an array, pointwise: slot `j` carries key `j+1`
/// and the encoded element.
proof fn lemma_encode_array_entries(items: Seq<ValueView>)
    requires
        items.len() < 0x7fff_ffff_ffff_ffff,
    ensures
        spec_encode_array(items).len() == items.len(),
        forall|j: int|
            0 <= j < items.len() ==> #[trigger] spec_encode_array(items)[j] == (
            LuaKeyView::Int((j + 1) as i64),
            spec_encode(items[j]),
            ),
    decreases items.len(),
{
    if items.len() > 0 {
        lemma_encode_array_entries(items.drop_last());
        assert forall|j: int|
            0 <= j < items.len() implies #[trigger] spec_encode_array(items)[j] == (
        LuaKeyView::Int((j + 1) as i64),
        spec_encode(items[j]),
        ) by {
            if j < items.len() - 1 {
                assert(items.drop_last()[j] == items[j]);
            }
        }
    }
}

/// The entries encoding an object, pointwise.
pub proof fn lemma_encode_object_entries(fields: Seq<(Seq<char>, ValueView)>)
    ensures
        spec_encode_object(fields).len() == fields.len(),
        forall|j: int|
            0 <= j < fields.len() ==> #[trigger] spec_encode_object(fields)[j] == (
            LuaKeyView::Str(fields[j].0),
            spec_encode(fields[j].1),
            ),
    decreases fields.len(),
{
    if fields.len() > 0 {
        lemma_encode_object_entries(fields.drop_last());
        assert forall|j: int|
            0 <= j < fields.len() implies #[trigger] spec_encode_object(fields)[j] == (
        LuaKeyView::Str(fields[j].0),
        spec_encode(fields[j].1),
        ) by {
            if j < fields.len() - 1 {
                assert(fields.drop_last()[j] == fields[j]);
            }
        }
    }
}

/// Decoding the encoding of an array's first `n` elements gives those
/// elements back.
proof fn lemma_decode_encoded_array(items: Seq<ValueView>, n: int)
    requires
        items.len() < 0x7fff_ffff_ffff_ffff,
        0 <= n <= items.len(),
        forall|i: int|
            0 <= i < items.len() ==> (#[trigger] items[i]).wf() && sizes_ok(items[i])
                && objects_nonempty(items[i]),
    ensures
        spec_decode_array(spec_encode_array(items), n) =~= items.subrange(0, n),
    decreases items, 0int, n,
{
    lemma_encode_array_entries(items);
    let entries = spec_encode_array(items);
    if n > 0 {
        lemma_decode_encoded_array(items, n - 1);
        // The entry keyed `n` stands at slot `n - 1`.
        assert(entries[n - 1].0 == LuaKeyView::Int(n as i64));
        let i = array_index_of(entries, n);
        assert(0 <= i < entries.len() && entries[i].0 == LuaKeyView::Int(n as i64)) by {
            assert(entries[n - 1].0 == LuaKeyView::Int(n as i64));
        }
        assert(i == n - 1) by {
            if i != n - 1 {
                assert(entries[i].0 == (LuaKeyView::Int(((i + 1)) as i64)));
            }
        }
        assert(decreases_to!(items => items[n - 1]));
        lemma_round_trip(items[n - 1]);
        assert(spec_decode(entries[i].1) == items[n - 1]);
        assert(items.subrange(0, n).drop_last() =~= items.subrange(0, n - 1));
    }
}

/// Decoding the encoding of object fields gives those fields back.
proof fn lemma_decode_encoded_object(fields: Seq<(Seq<char>, ValueView)>)
    requires
        forall|i: int|
            0 <= i < fields.len() ==> (#[trigger] fields[i]).1.wf() && sizes_ok(fields[i].1)
                && objects_nonempty(fields[i].1),
    ensures
        spec_decode_object(spec_encode_object(fields)) =~= fields,
    decreases fields, 0int, 0int,
{
    let entries = spec_encode_object(fields);
    lemma_encode_object_entries(fields);
    if fields.len() > 0 {
        let pre = fields.drop_last();
        assert(decreases_to!(fields => pre)) by {
            assert(pre == fields.subrange(0, fields.len() - 1));
            vstd::seq::axiom_seq_subrange_decreases(fields, 0, fields.len() - 1);
        }
        assert forall|i: int|
            0 <= i < pre.len() implies (#[trigger] pre[i]).1.wf() && sizes_ok(pre[i].1)
            && objects_nonempty(pre[i].1) by {
            assert(pre[i] == fields[i]);
        }
        lemma_decode_encoded_object(pre);
        lemma_encode_object_entries(pre);
        assert(entries.drop_last() =~= spec_encode_object(pre));
        assert(entries.last() == (LuaKeyView::Str(fields.last().0), spec_encode(fields.last().1)));
        assert(decreases_to!(fields => fields[fields.len() - 1]));
        assert(decreases_to!(fields[fields.len() - 1] => fields.last().1));
        lemma_round_trip(fields.last().1);
    }
}

/// Marshaling a value out and back gives the value itself: encoding then
/// decoding any well-formed value whose objects are nonempty and whose
/// arrays fit interpreter indexing is the identity.
pub proof fn lemma_round_trip(v: ValueView)
    requires
        v.wf(),
        sizes_ok(v),
        objects_nonempty(v),
    ensures
        spec_decode(spec_encode(v)) == v,
    decreases v, 1int, 0int,
{
    match v {
        ValueView::Array(items) => {
            lemma_encode_array_entries(items);
            let entries = spec_encode_array(items);
            assert(is_array_table(entries)) by {
                assert forall|i: int|
                    0 <= i < entries.len() implies ((#[trigger] entries[i]).0 matches
                LuaKeyView::Int(k) && 1 <= k <= entries.len()) by {
                    assert(entries[i].0 == LuaKeyView::Int((i + 1) as i64));
                }
                assert forall|i: int, j: int|
                    0 <= i < j < entries.len() implies entries[i].0 != entries[j].0 by {
                    assert(entries[i].0 == LuaKeyView::Int((i + 1) as i64));
                    assert(entries[j].0 == LuaKeyView::Int((j + 1) as i64));
                }
            }
            assert forall|i: int|
                0 <= i < items.len() implies (#[trigger] items[i]).wf() && sizes_ok(items[i])
                && objects_nonempty(items[i]) by {}
            lemma_decode_encoded_array(items, items.len() as int);
            assert(items.subrange(0, items.len() as int) =~= items);
        }
        ValueView::Object(fields) => {
            lemma_encode_object_entries(fields);
            let entries = spec_encode_object(fields);
            assert(!is_array_table(entries)) by {
                assert(entries[0].0 == LuaKeyView::Str(fields[0].0));
            }
            assert forall|i: int|
                0 <= i < fields.len() implies (#[trigger] fields[i]).1.wf() && sizes_ok(
                fields[i].1,
            ) && objects_nonempty(fields[i].1) by {
                assert(field_value(fields, i) == fields[i].1);
            }
            lemma_decode_encoded_object(fields);
        }
        _ => {}
    }
}


/// Encodes a value for the interpreter.
pub fn value_to_lua(v: &Value) -> (r: LuaData)
    requires
        sizes_ok(v.deep_view()),
    ensures
        r.deep_view() == spec_encode(v.deep_view()),
    decreases *v,
{
    match v {
        Value::Nil => LuaData::Nil,
        Value::Number(n) => LuaData::Number(*n),
        Value::Text(s) => LuaData::Str(s.clone()),
        Value::Boolean(b) => LuaData::Boolean(*b),
        Value::Array(items) => {
            let ghost iv = crate::value::views_of(items@);
            proof {
                crate::value::lemma_views_of(items@);
                lemma_encode_array_entries(iv);
            }
            let mut out: Vec<(LuaKey, LuaData)> = Vec::new();
            let mut i: usize = 0;
            while i < items.len()
                invariant
                    sizes_ok(v.deep_view()),
                    v is Array && v->Array_0 == *items,
                    iv == crate::value::views_of(items@),
                    iv.len() == items@.len(),
                    iv.len() < 0x7fff_ffff_ffff_ffff,
                    forall|k: int| 0 <= k < items@.len() ==> iv[k] == (#[trigger] items@[k]).deep_view(),
                    spec_encode_array(iv).len() == iv.len(),
                    forall|j: int|
                        0 <= j < iv.len() ==> #[trigger] spec_encode_array(iv)[j] == (
                        LuaKeyView::Int((j + 1) as i64),
                        spec_encode(iv[j]),
                        ),
                    i <= items@.len(),
                    lua_entry_views_of(out@) =~= spec_encode_array(iv).subrange(0, i as int),
                    out@.len() == i,
                decreases items@.len() - i,
            {
                proof {
                    assert(decreases_to!(*v => v->Array_0));
                    assert(decreases_to!(*items => items@[i as int]));
                    assert(sizes_ok(iv[i as int]));
                }
                let ghost before = out@;
                let key = LuaKey::Int((i as i64) + 1);
                let enc = value_to_lua(&items[i]);
                out.push((key, enc));
                proof {
                    lemma_lua_entry_views_of(out@);
                    lemma_lua_entry_views_of(before);
                    assert forall|j: int|
                        0 <= j < out@.len() implies lua_entry_views_of(out@)[j]
                        == spec_encode_array(iv).subrange(0, i + 1)[j] by {
                        if j < before.len() {
                            assert(out@[j] == before[j]);
                            assert(lua_entry_views_of(before)[j] == spec_encode_array(
                                iv,
                            ).subrange(0, i as int)[j]);
                        } else {
                            assert(out@[j] == (key, enc));
                        }
                    }
                    assert(lua_entry_views_of(out@) =~= spec_encode_array(iv).subrange(0, i + 1));
                }
                i += 1;
            }
            proof {
                assert(spec_encode_array(iv).subrange(0, iv.len() as int) =~= spec_encode_array(
                    iv,
                ));
            }
            LuaData::Table(out)
        }
        Value::Object(fields) => {
            let ghost fv = crate::value::entry_views_of(fields@);
            proof {
                crate::value::lemma_entry_views_of(fields@);
                lemma_encode_object_entries(fv);
            }
            let mut out: Vec<(LuaKey, LuaData)> = Vec::new();
            let mut i: usize = 0;
            while i < fields.len()
                invariant
                    sizes_ok(v.deep_view()),
                    v is Object && v->Object_0 == *fields,
                    fv == crate::value::entry_views_of(fields@),
                    fv.len() == fields@.len(),
                    forall|k: int|
                        0 <= k < fields@.len() ==> fv[k] == ((#[trigger] fields@[k]).0@,
                        fields@[k].1.deep_view()),
                    spec_encode_object(fv).len() == fv.len(),
                    forall|j: int|
                        0 <= j < fv.len() ==> #[trigger] spec_encode_object(fv)[j] == (
                        LuaKeyView::Str(fv[j].0),
                        spec_encode(fv[j].1),
                        ),
                    i <= fields@.len(),
                    lua_entry_views_of(out@) =~= spec_encode_object(fv).subrange(0, i as int),
                    out@.len() == i,
                decreases fields@.len() - i,
            {
                proof {
                    assert(decreases_to!(*v => v->Object_0));
                    assert(decreases_to!(*fields => fields@[i as int]));
                    assert(decreases_to!(fields@[i as int] => fields@[i as int].1));
                    assert(v.deep_view() == ValueView::Object(fv));
                    assert(sizes_ok(ValueView::Object(fv)));
                    assert(field_value(fv, i as int) == fv[i as int].1);
                    assert(sizes_ok(fv[i as int].1));
                }
                let ghost before = out@;
                let key = LuaKey::Str(fields[i].0.clone());
                let enc = value_to_lua(&fields[i].1);
                out.push((key, enc));
                proof {
                    lemma_lua_entry_views_of(out@);
                    lemma_lua_entry_views_of(before);
                    assert forall|j: int|
                        0 <= j < out@.len() implies lua_entry_views_of(out@)[j]
                        == spec_encode_object(fv).subrange(0, i + 1)[j] by {
                        if j < before.len() {
                            assert(out@[j] == before[j]);
                            assert(lua_entry_views_of(before)[j] == spec_encode_object(
                                fv,
                            ).subrange(0, i as int)[j]);
                        } else {
                            assert(out@[j] == (key, enc));
                        }
                    }
                    assert(lua_entry_views_of(out@) =~= spec_encode_object(fv).subrange(
                        0,
                        i + 1,
                    ));
                }
                i += 1;
            }
            proof {
                assert(spec_encode_object(fv).subrange(0, fv.len() as int) =~= spec_encode_object(
                    fv,
                ));
            }
            LuaData::Table(out)
        }
    }
}


/// Decodes an interpreter value into a runtime value: array-shaped
/// tables (keys exactly 1..n) become arrays in key order, every other
/// table becomes an object from its string-keyed entries.
pub fn from_lua_data(d: &LuaData) -> (r: Value)
    ensures
        r.deep_view() == spec_decode(d.deep_view()),
    decreases *d,
{
    match d {
        LuaData::Nil => Value::Nil,
        LuaData::Boolean(b) => Value::Boolean(*b),
        LuaData::Number(n) => Value::Number(*n),
        LuaData::Str(s) => Value::Text(s.clone()),
        LuaData::Table(entries) => {
            let ghost ev = lua_entry_views_of(entries@);
            proof {
                lemma_lua_entry_views_of(entries@);
            }
            let n = entries.len();

            // Are the keys exactly the integers 1..n?
            let mut keys_ok = (n as u64) <= 0x7fff_ffff_ffff_ffffu64;
            let ghost len_ok = n <= 0x7fff_ffff_ffff_ffff;
            let mut i: usize = 0;
            while i < n
                invariant
                    n == entries@.len(),
                    ev == lua_entry_views_of(entries@),
                    ev.len() == n,
                    forall|k: int|
                        0 <= k < n ==> ev[k] == ((#[trigger] entries@[k]).0.deep_view(),
                        lua_view_of(entries@[k].1)),
                    i <= n,
                    keys_ok == (len_ok && forall|k: int|
                        0 <= k < i ==> ((#[trigger] ev[k]).0 matches LuaKeyView::Int(x) && 1 <= x
                            <= n)),
                    len_ok == (n <= 0x7fff_ffff_ffff_ffff),
                decreases n - i,
            {
                let ok = match &entries[i].0 {
                    LuaKey::Int(x) => 1 <= *x && *x as u64 <= n as u64,
                    LuaKey::Str(_) => false,
                };
                proof {
                    assert(ok == ((ev[i as int].0 matches LuaKeyView::Int(x) && 1 <= x <= n)));
                }
                keys_ok = keys_ok && ok;
                i += 1;
            }
            let mut distinct = true;
            if keys_ok {
                let mut a: usize = 0;
                while a < n
                    invariant
                        keys_ok,
                        n <= 0x7fff_ffff_ffff_ffff,
                        n == entries@.len(),
                        ev == lua_entry_views_of(entries@),
                        ev.len() == n,
                        forall|k: int|
                            0 <= k < n ==> ev[k] == ((#[trigger] entries@[k]).0.deep_view(),
                            lua_view_of(entries@[k].1)),
                        forall|k: int|
                            0 <= k < n ==> ((#[trigger] ev[k]).0 matches LuaKeyView::Int(x) && 1
                                <= x <= n),
                        a <= n,
                        distinct == forall|x: int, y: int|
                            0 <= x < y < n && x < a ==> (#[trigger] ev[x]).0 != (
                            #[trigger] ev[y]).0,
                    decreases n - a,
                {
                    let ka = match &entries[a].0 {
                        LuaKey::Int(x) => *x,
                        LuaKey::Str(_) => 0,
                    };
                    let mut b: usize = a + 1;
                    let mut row_ok = true;
                    while b < n
                        invariant
                            keys_ok,
                            n <= 0x7fff_ffff_ffff_ffff,
                            a < n,
                            n == entries@.len(),
                            ev == lua_entry_views_of(entries@),
                            ev.len() == n,
                            forall|k: int|
                                0 <= k < n ==> ev[k] == ((#[trigger] entries@[k]).0.deep_view(),
                                lua_view_of(entries@[k].1)),
                            forall|k: int|
                                0 <= k < n ==> ((#[trigger] ev[k]).0 matches LuaKeyView::Int(x)
                                    && 1 <= x <= n),
                            ev[a as int].0 == LuaKeyView::Int(ka),
                            a < b <= n,
                            row_ok == forall|y: int|
                                a < y < b ==> (#[trigger] ev[y]).0 != ev[a as int].0,
                        decreases n - b,
                    {
                        let kb = match &entries[b].0 {
                            LuaKey::Int(x) => *x,
                            LuaKey::Str(_) => 0,
                        };
                        proof {
                            assert(ev[b as int].0 == LuaKeyView::Int(kb));
                        }
                        if kb == ka {
                            row_ok = false;
                        }
                        b += 1;
                    }
                    proof {
                        if !row_ok {
                            let y = choose|y: int|
                                a < y < n && (#[trigger] ev[y]).0 == ev[a as int].0;
                        }
                    }
                    distinct = distinct && row_ok;
                    proof {
                        assert forall|x: int, y: int|
                            0 <= x < y < n && x < a + 1 && distinct implies (#[trigger] ev[x]).0
                            != (#[trigger] ev[y]).0 by {
                            if x == a {
                                assert(row_ok);
                            }
                        }
                        if !distinct {
                        }
                    }
                    a += 1;
                }
            }
            let is_arr = keys_ok && distinct;
            proof {
                assert(is_arr == is_array_table(ev));
            }

            if is_arr {
                let mut out: Vec<Value> = Vec::new();
                let mut k: usize = 0;
                while k < n
                    invariant
                        n == entries@.len(),
                        n <= 0x7fff_ffff_ffff_ffff,
                        ev == lua_entry_views_of(entries@),
                        ev.len() == n,
                        is_array_table(ev),
                        forall|k2: int|
                            0 <= k2 < n ==> ev[k2] == ((#[trigger] entries@[k2]).0.deep_view(),
                            lua_view_of(entries@[k2].1)),
                        k <= n,
                        d is Table && d->Table_0 == *entries,
                        crate::value::views_of(out@) =~= spec_decode_array(ev, k as int),
                        out@.len() == k,
                    decreases n - k,
                {
                    let slot = k + 1;
                    let mut found: Option<usize> = None;
                    let mut j: usize = 0;
                    while j < n
                        invariant
                            n == entries@.len(),
                            n <= 0x7fff_ffff_ffff_ffff,
                            ev == lua_entry_views_of(entries@),
                            ev.len() == n,
                            forall|k2: int|
                                0 <= k2 < n ==> ev[k2] == ((#[trigger] entries@[
                                k2]).0.deep_view(), lua_view_of(entries@[k2].1)),
                            j <= n,
                            slot == k + 1,
                            1 <= slot <= n,
                            match found {
                                Some(f) => f < n && ev[f as int].0 == LuaKeyView::Int(
                                    slot as i64,
                                ),
                                None => forall|x: int|
                                    0 <= x < j ==> (#[trigger] ev[x]).0 != LuaKeyView::Int(
                                        slot as i64,
                                    ),
                            },
                        decreases n - j,
                    {
                        if found.is_none() {
                            let hit = match &entries[j].0 {
                                LuaKey::Int(x) => *x == slot as i64,
                                LuaKey::Str(_) => false,
                            };
                            proof {
                                assert(hit == (ev[j as int].0 == LuaKeyView::Int(slot as i64)));
                            }
                            if hit {
                                found = Some(j);
                            }
                        }
                        j += 1;
                    }
                    let ghost before_vec = out@;
                    let ghost prev = crate::value::views_of(before_vec);
                    match found {
                        Some(f) => {
                            proof {
                                assert(decreases_to!(*d => d->Table_0));
                                assert(decreases_to!(*entries => entries@[f as int]));
                                assert(decreases_to!(entries@[f as int] => entries@[
                                f as int].1));
                            }
                            let v = from_lua_data(&entries[f].1);
                            out.push(v);
                            proof {
                                // The found slot is the one the model picks.
                                assert(ev[f as int].0 == LuaKeyView::Int(((slot as int)) as i64));
                                assert(exists|i2: int|
                                    0 <= i2 < ev.len() && (#[trigger] ev[i2]).0
                                        == LuaKeyView::Int((slot as int) as i64));
                                let i2 = array_index_of(ev, slot as int);
                                assert(0 <= i2 < ev.len() && ev[i2].0 == LuaKeyView::Int(
                                    slot as i64,
                                ));
                                assert(i2 == f as int) by {
                                    if i2 != f as int {
                                        assert(ev[i2].0 != ev[f as int].0);
                                    }
                                }
                                crate::value::lemma_views_of(out@);
                                crate::value::lemma_views_of(before_vec);
                                assert forall|x: int|
                                    0 <= x < out@.len() implies crate::value::views_of(out@)[x]
                                    == spec_decode_array(ev, slot as int)[x] by {
                                    if x < before_vec.len() {
                                        assert(out@[x] == before_vec[x]);
                                        assert(crate::value::views_of(before_vec)[x]
                                            == spec_decode_array(ev, k as int)[x]);
                                    } else {
                                        assert(crate::value::views_of(out@)[x] == v.deep_view());
                                    }
                                }
                                assert(crate::value::views_of(out@) =~= spec_decode_array(
                                    ev,
                                    slot as int,
                                ));
                            }
                        }
                        None => {
                            out.push(Value::Nil);
                            proof {
                                assert forall|i2: int|
                                    0 <= i2 < ev.len() implies (#[trigger] ev[i2]).0
                                    != LuaKeyView::Int(slot as i64) by {}
                                crate::value::lemma_views_of(out@);
                                crate::value::lemma_views_of(before_vec);
                                assert forall|x: int|
                                    0 <= x < out@.len() implies crate::value::views_of(out@)[x]
                                    == spec_decode_array(ev, slot as int)[x] by {
                                    if x < before_vec.len() {
                                        assert(out@[x] == before_vec[x]);
                                        assert(crate::value::views_of(before_vec)[x]
                                            == spec_decode_array(ev, k as int)[x]);
                                    } else {
                                        assert(crate::value::views_of(out@)[x]
                                            == ValueView::Nil);
                                    }
                                }
                                assert(crate::value::views_of(out@) =~= spec_decode_array(
                                    ev,
                                    slot as int,
                                ));
                            }
                        }
                    }
                    k += 1;
                }
                let r = Value::Array(out);
                proof {
                    assert(r.deep_view() == ValueView::Array(crate::value::views_of(out@)));
                    assert(crate::value::views_of(out@) =~= spec_decode_array(ev, n as int));
                }
                r
            } else {
                let mut obj: Vec<(String, Value)> = Vec::new();
                let mut i: usize = 0;
                while i < n
                    invariant
                        n == entries@.len(),
                        ev == lua_entry_views_of(entries@),
                        ev.len() == n,
                        forall|k2: int|
                            0 <= k2 < n ==> ev[k2] == ((#[trigger] entries@[k2]).0.deep_view(),
                            lua_view_of(entries@[k2].1)),
                        i <= n,
                        d is Table && d->Table_0 == *entries,
                        crate::value::entry_views_of(obj@) =~= spec_decode_object(
                            ev.subrange(0, i as int),
                        ),
                    decreases n - i,
                {
                    proof {
                        assert(ev.subrange(0, i + 1).drop_last() =~= ev.subrange(0, i as int));
                        assert(ev.subrange(0, i + 1).last() == ev[i as int]);
                    }
                    match &entries[i].0 {
                        LuaKey::Str(key) => {
                            proof {
                                assert(decreases_to!(*d => d->Table_0));
                                assert(decreases_to!(*entries => entries@[i as int]));
                                assert(decreases_to!(entries@[i as int] => entries@[
                                i as int].1));
                            }
                            let ghost before_obj = obj@;
                            let v = from_lua_data(&entries[i].1);
                            obj.push((key.clone(), v));
                            proof {
                                crate::value::lemma_entry_views_of(obj@);
                                crate::value::lemma_entry_views_of(before_obj);
                                let goal = spec_decode_object(ev.subrange(0, i + 1));
                                assert(goal == spec_decode_object(ev.subrange(0, i as int)).push(
                                    (ev[i as int].0->Str_0, spec_decode(ev[i as int].1)),
                                ));
                                assert forall|x: int|
                                    0 <= x < obj@.len() implies crate::value::entry_views_of(
                                    obj@,
                                )[x] == goal[x] by {
                                    if x < before_obj.len() {
                                        assert(obj@[x] == before_obj[x]);
                                        assert(crate::value::entry_views_of(before_obj)[x]
                                            == spec_decode_object(ev.subrange(0, i as int))[x]);
                                    }
                                }
                                assert(crate::value::entry_views_of(obj@) =~= goal);
                            }
                        }
                        LuaKey::Int(_) => {
                            proof {
                                assert(crate::value::entry_views_of(obj@) =~= spec_decode_object(
                                    ev.subrange(0, i + 1),
                                ));
                            }
                        }
                    }
                    i += 1;
                }
                let r = Value::Object(obj);
                proof {
                    assert(ev.subrange(0, n as int) =~= ev);
                    assert(r.deep_view() == ValueView::Object(
                        crate::value::entry_views_of(obj@),
                    ));
                }
                r
            }
        }
    }
}

} // verus!
