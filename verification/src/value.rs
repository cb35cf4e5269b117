//! Runtime values flowing through ports, properties and script state.
//!
//! Numbers are IEEE 754 double-precision values carried by their bit
//! pattern, so that the graph core never computes on them; the interpreter
//! bridge converts the bits to and from native doubles at the boundary.

use vstd::prelude::*;

verus! {

/// A runtime value: the tagged union used for every port, property and
/// script I/O value. `Object` holds its fields as a key/value list whose
/// keys are unique in well-formed values (see [`ValueView::wf`]).
#[derive(Debug)]
pub enum Value {
    Nil,
    /// An IEEE 754 double, stored as its raw bit pattern.
    Number(u64),
    Text(String),
    Boolean(bool),
    Array(Vec<Value>),
    Object(Vec<(String, Value)>),
}

/// The mathematical model of a [`Value`]: the same tree over sequences.
pub enum ValueView {
    Nil,
    Number(u64),
    Text(Seq<char>),
    Boolean(bool),
    Array(Seq<ValueView>),
    Object(Seq<(Seq<char>, ValueView)>),
}

/// The model of a value: the same tree, over sequences.
pub open spec fn view_of(v: Value) -> ValueView
    decreases v,
{
    match v {
        Value::Nil => ValueView::Nil,
        Value::Number(n) => ValueView::Number(n),
        Value::Text(s) => ValueView::Text(s@),
        Value::Boolean(b) => ValueView::Boolean(b),
        Value::Array(items) => ValueView::Array(views_of(items@)),
        Value::Object(fields) => ValueView::Object(entry_views_of(fields@)),
    }
}

/// The models of a sequence of values, element by element.
pub open spec fn views_of(s: Seq<Value>) -> Seq<ValueView>
    decreases s,
{
    if s.len() == 0 {
        Seq::empty()
    } else {
        views_of(s.drop_last()).push(view_of(s.last()))
    }
}

/// The models of a key/value entry list, entry by entry.
pub open spec fn entry_views_of(s: Seq<(String, Value)>) -> Seq<(Seq<char>, ValueView)>
    decreases s,
{
    if s.len() == 0 {
        Seq::empty()
    } else {
        entry_views_of(s.drop_last()).push((s.last().0@, view_of(s.last().1)))
    }
}

/// `views_of` maps the sequence pointwise.
pub broadcast proof fn lemma_views_of(s: Seq<Value>)
    ensures
        (#[trigger] views_of(s)).len() == s.len(),
        forall|i: int| 0 <= i < s.len() ==> views_of(s)[i] == view_of(#[trigger] s[i]),
    decreases s,
{
    if s.len() > 0 {
        lemma_views_of(s.drop_last());
        assert forall|i: int| 0 <= i < s.len() implies views_of(s)[i] == view_of(s[i]) by {
            if i < s.len() - 1 {
                assert(s.drop_last()[i] == s[i]);
            }
        }
    }
}

/// `entry_views_of` maps the entry list pointwise.
pub broadcast proof fn lemma_entry_views_of(s: Seq<(String, Value)>)
    ensures
        (#[trigger] entry_views_of(s)).len() == s.len(),
        forall|i: int|
            0 <= i < s.len() ==> entry_views_of(s)[i] == ((#[trigger] s[i]).0@, view_of(s[i].1)),
    decreases s,
{
    if s.len() > 0 {
        lemma_entry_views_of(s.drop_last());
        assert forall|i: int|
            0 <= i < s.len() implies entry_views_of(s)[i] == (s[i].0@, view_of(s[i].1)) by {
            if i < s.len() - 1 {
                assert(s.drop_last()[i] == s[i]);
            }
        }
    }
}

impl DeepView for Value {
    type V = ValueView;

    open spec fn deep_view(&self) -> ValueView {
        view_of(*self)
    }
}

impl ValueView {
    /// No two fields of an object share a key, at every level of the tree.
    pub open spec fn wf(self) -> bool
        decreases self,
    {
        match self {
            ValueView::Array(items) => forall|i: int|
                0 <= i < items.len() ==> (#[trigger] items[i]).wf(),
            ValueView::Object(fields) => {
                &&& forall|i: int, j: int|
                    0 <= i < j < fields.len() ==> fields[i].0 != fields[j].0
                &&& forall|i: int| 0 <= i < fields.len() ==> (#[trigger] fields[i].1).wf()
            },
            _ => true,
        }
    }
}

impl Value {
    /// The stored bit pattern of a number, when the value is one.
    pub fn as_number(&self) -> (r: Option<u64>)
        ensures
            r == (match self.deep_view() {
                ValueView::Number(n) => Some(n),
                _ => None::<u64>,
            }),
    {
        match self {
            Value::Number(n) => Some(*n),
            _ => None,
        }
    }

    /// The string contents, when the value is a string.
    pub fn as_string(&self) -> (r: Option<&str>)
        ensures
            match self.deep_view() {
                ValueView::Text(s) => r matches Some(t) && t@ == s,
                _ => r is None,
            },
    {
        match self {
            Value::Text(s) => Some(s.as_str()),
            _ => None,
        }
    }

    /// The boolean contents, when the value is a boolean.
    pub fn as_bool(&self) -> (r: Option<bool>)
        ensures
            r == (match self.deep_view() {
                ValueView::Boolean(b) => Some(b),
                _ => None::<bool>,
            }),
    {
        match self {
            Value::Boolean(b) => Some(*b),
            _ => None,
        }
    }
}

impl Clone for Value {
    /// Deep copy; the copy models the same value as the original.
    fn clone(&self) -> (r: Value)
        ensures
            r.deep_view() == self.deep_view(),
        decreases *self,
    {
        match self {
            Value::Nil => Value::Nil,
            Value::Number(n) => Value::Number(*n),
            Value::Text(s) => Value::Text(s.clone()),
            Value::Boolean(b) => Value::Boolean(*b),
            Value::Array(items) => {
                let mut out: Vec<Value> = Vec::new();
                let mut i: usize = 0;
                while i < items.len()
                    invariant
                        self is Array && self->Array_0 == *items,
                        i <= items.len(),
                        out@.len() == i,
                        forall|k: int| 0 <= k < i ==> (#[trigger] out@[k]).deep_view() == items@[k].deep_view(),
                    decreases items.len() - i,
                {
                    proof {
                        assert(decreases_to!(*self => self->Array_0));
                        assert(decreases_to!(*items => items@[i as int]));
                    }
                    out.push(items[i].clone());
                    i += 1;
                }
                let r = Value::Array(out);
                proof {
                    lemma_views_of(out@);
                    lemma_views_of(items@);
                    assert forall|k: int| 0 <= k < out@.len()
                        implies views_of(out@)[k] == views_of(items@)[k] by {
                        assert(out@[k].deep_view() == items@[k].deep_view());
                    }
                    assert(views_of(out@) =~= views_of(items@));
                }
                r
            }
            Value::Object(fields) => {
                let mut out: Vec<(String, Value)> = Vec::new();
                let mut i: usize = 0;
                while i < fields.len()
                    invariant
                        self is Object && self->Object_0 == *fields,
                        i <= fields.len(),
                        out@.len() == i,
                        forall|k: int|
                            0 <= k < i ==> (#[trigger] out@[k]).0@ == fields@[k].0@
                                && out@[k].1.deep_view() == fields@[k].1.deep_view(),
                    decreases fields.len() - i,
                {
                    proof {
                        assert(decreases_to!(*self => self->Object_0));
                        assert(decreases_to!(*fields => fields@[i as int]));
                    }
                    let entry = (fields[i].0.clone(), fields[i].1.clone());
                    out.push(entry);
                    i += 1;
                }
                let r = Value::Object(out);
                proof {
                    lemma_entry_views_of(out@);
                    lemma_entry_views_of(fields@);
                    assert forall|k: int| 0 <= k < out@.len()
                        implies entry_views_of(out@)[k] == entry_views_of(fields@)[k] by {
                        assert(out@[k].0@ == fields@[k].0@);
                        assert(out@[k].1.deep_view() == fields@[k].1.deep_view());
                    }
                    assert(entry_views_of(out@) =~= entry_views_of(fields@));
                }
                r
            }
        }
    }
}

impl PartialEq for Value {
    /// Deep structural equality: two values are equal exactly when they
    /// model the same tree.
    fn eq(&self, other: &Value) -> (r: bool)
        ensures
            r == (self.deep_view() == other.deep_view()),
        decreases *self,
    {
        match (self, other) {
            (Value::Nil, Value::Nil) => true,
            (Value::Number(a), Value::Number(b)) => a == b,
            (Value::Text(a), Value::Text(b)) => a.eq(b),
            (Value::Boolean(a), Value::Boolean(b)) => a == b,
            (Value::Array(xs), Value::Array(ys)) => {
                proof {
                    lemma_views_of(xs@);
                    lemma_views_of(ys@);
                }
                if xs.len() != ys.len() {
                    return false;
                }
                let mut i: usize = 0;
                while i < xs.len()
                    invariant
                        self is Array && self->Array_0 == *xs,
                        other is Array && other->Array_0 == *ys,
                        xs@.len() == ys@.len(),
                        i <= xs.len(),
                        views_of(xs@).len() == xs@.len(),
                        views_of(ys@).len() == ys@.len(),
                        forall|k: int|
                            0 <= k < xs@.len() ==> views_of(xs@)[k] == view_of(#[trigger] xs@[k]),
                        forall|k: int|
                            0 <= k < ys@.len() ==> views_of(ys@)[k] == view_of(#[trigger] ys@[k]),
                        forall|k: int| 0 <= k < i ==> views_of(xs@)[k] == views_of(ys@)[k],
                    decreases xs.len() - i,
                {
                    proof {
                        assert(decreases_to!(*self => self->Array_0));
                        assert(decreases_to!(*xs => xs@[i as int]));
                    }
                    if !xs[i].eq(&ys[i]) {
                        return false;
                    }
                    i += 1;
                }
                proof {
                    assert(views_of(xs@) =~= views_of(ys@));
                }
                true
            }
            (Value::Object(xs), Value::Object(ys)) => {
                proof {
                    lemma_entry_views_of(xs@);
                    lemma_entry_views_of(ys@);
                }
                if xs.len() != ys.len() {
                    return false;
                }
                let mut i: usize = 0;
                while i < xs.len()
                    invariant
                        self is Object && self->Object_0 == *xs,
                        other is Object && other->Object_0 == *ys,
                        xs@.len() == ys@.len(),
                        i <= xs.len(),
                        entry_views_of(xs@).len() == xs@.len(),
                        entry_views_of(ys@).len() == ys@.len(),
                        forall|k: int|
                            0 <= k < xs@.len() ==> entry_views_of(xs@)[k] == ((
                            #[trigger] xs@[k]).0@, view_of(xs@[k].1)),
                        forall|k: int|
                            0 <= k < ys@.len() ==> entry_views_of(ys@)[k] == ((
                            #[trigger] ys@[k]).0@, view_of(ys@[k].1)),
                        forall|k: int| 0 <= k < i ==> entry_views_of(xs@)[k] == entry_views_of(
                            ys@,
                        )[k],
                    decreases xs.len() - i,
                {
                    proof {
                        assert(decreases_to!(*self => self->Object_0));
                        assert(decreases_to!(*xs => xs@[i as int]));
                    }
                    if !xs[i].0.eq(&ys[i].0) {
                        return false;
                    }
                    if !xs[i].1.eq(&ys[i].1) {
                        return false;
                    }
                    i += 1;
                }
                proof {
                    assert(entry_views_of(xs@) =~= entry_views_of(ys@));
                }
                true
            }
            _ => {
                proof {
                    assert(self.deep_view() != other.deep_view());
                }
                false
            }
        }
    }
}

impl Eq for Value {}

impl vstd::std_specs::cmp::PartialEqSpecImpl for Value {
    open spec fn obeys_eq_spec() -> bool {
        true
    }

    open spec fn eq_spec(&self, other: &Value) -> bool {
        self.deep_view() == other.deep_view()
    }
}

} // verus!
