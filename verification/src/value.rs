use vstd::prelude::*;

verus! {

/// A property list value.
///
/// `Real` and `Date` carry the IEEE 754 double-precision bit pattern of the
/// number (what `f64::to_bits` returns), so that every value has one exact
/// representation; `Date` counts seconds since the Apple epoch
/// (2001-01-01 00:00:00 UTC).
#[derive(Debug, PartialEq)]
pub enum Value {
    /// Null (rarely used in practice).
    Null,
    /// Boolean.
    Bool(bool),
    /// Signed 64-bit integer.
    Integer(i64),
    /// IEEE 754 double, as its bit pattern.
    Real(u64),
    /// Seconds since the Apple epoch, as the bit pattern of an IEEE 754 double.
    Date(u64),
    /// Raw binary data.
    Data(Vec<u8>),
    /// UTF-8 string.
    String(String),
    /// Unsigned integer UID used by NSKeyedArchiver.
    Uid(u64),
    /// Ordered sequence of values.
    Array(Vec<Value>),
    /// Unordered set of values.
    UnorderedSet(Vec<Value>),
    /// Key-value pairs, in document order.
    Dictionary(Vec<(Value, Value)>),
}

/// The mathematical model of a [`Value`]: strings as character sequences,
/// collections as sequences of models.
pub enum SpecValue {
    Null,
    Bool(bool),
    Integer(i64),
    Real(u64),
    Date(u64),
    Data(Seq<u8>),
    String(Seq<char>),
    Uid(u64),
    Array(Seq<SpecValue>),
    UnorderedSet(Seq<SpecValue>),
    Dictionary(Seq<(SpecValue, SpecValue)>),
}

impl Value {
    pub open spec fn view(self) -> SpecValue
        decreases self,
    {
        match self {
            Value::Null => SpecValue::Null,
            Value::Bool(b) => SpecValue::Bool(b),
            Value::Integer(i) => SpecValue::Integer(i),
            Value::Real(r) => SpecValue::Real(r),
            Value::Date(d) => SpecValue::Date(d),
            Value::Data(d) => SpecValue::Data(d@),
            Value::String(s) => SpecValue::String(s@),
            Value::Uid(u) => SpecValue::Uid(u),
            Value::Array(items) => SpecValue::Array(
                Seq::new(items.len() as nat, |i: int| if 0 <= i < items.len() { items@[i].view() } else { SpecValue::Null }),
            ),
            Value::UnorderedSet(items) => SpecValue::UnorderedSet(
                Seq::new(items.len() as nat, |i: int| if 0 <= i < items.len() { items@[i].view() } else { SpecValue::Null }),
            ),
            Value::Dictionary(pairs) => SpecValue::Dictionary(
                Seq::new(
                    pairs.len() as nat,
                    |i: int|
                        if 0 <= i < pairs.len() {
                            (pairs@[i].0.view(), pairs@[i].1.view())
                        } else {
                            (SpecValue::Null, SpecValue::Null)
                        },
                ),
            ),
        }
    }
}


/// The models of a sequence of values.
pub open spec fn views(s: Seq<Value>) -> Seq<SpecValue> {
    Seq::new(s.len(), |i: int| s[i]@)
}

/// The models of a sequence of pairs of values.
pub open spec fn pair_views(s: Seq<(Value, Value)>) -> Seq<(SpecValue, SpecValue)> {
    Seq::new(s.len(), |i: int| (s[i].0@, s[i].1@))
}


/// The model of an array or a set is made of the models of its elements.
pub proof fn lemma_items_views(items: Vec<Value>)
    ensures
        Value::Array(items)@ == SpecValue::Array(views(items@)),
        Value::UnorderedSet(items)@ == SpecValue::UnorderedSet(views(items@)),
{
    assert(Value::Array(items)@->Array_0 =~= views(items@));
    assert(Value::UnorderedSet(items)@->UnorderedSet_0 =~= views(items@));
}

/// The model of a dictionary is made of the models of its pairs.
pub proof fn lemma_pairs_views(pairs: Vec<(Value, Value)>)
    ensures
        Value::Dictionary(pairs)@ == SpecValue::Dictionary(pair_views(pairs@)),
{
    assert(Value::Dictionary(pairs)@->Dictionary_0 =~= pair_views(pairs@));
}

impl Value {
    /// A copy of this value, collections copied item by item.
    pub fn duplicate(&self) -> (r: Value)
        ensures
            r@ == self@,
        decreases self,
    {
        match self {
            Value::Null => Value::Null,
            Value::Bool(b) => Value::Bool(*b),
            Value::Integer(i) => Value::Integer(*i),
            Value::Real(r) => Value::Real(*r),
            Value::Date(d) => Value::Date(*d),
            Value::Data(d) => Value::Data(d.clone()),
            Value::String(s) => Value::String(s.clone()),
            Value::Uid(u) => Value::Uid(*u),
            Value::Array(items) | Value::UnorderedSet(items) => {
                let mut out: Vec<Value> = Vec::new();
                let mut i: usize = 0;
                while i < items.len()
                    invariant
                        i <= items@.len(),
                        out@.len() == i,
                        *self == Value::Array(*items) || *self == Value::UnorderedSet(*items),
                        forall|j: int| 0 <= j < i ==> (#[trigger] out@[j])@ == items@[j]@,
                    decreases items@.len() - i,
                {
                    proof {
                        if *self == Value::Array(*items) {
                            assert(decreases_to!(*self => self->Array_0));
                        } else {
                            assert(decreases_to!(*self => self->UnorderedSet_0));
                        }
                    }
                    assert(decreases_to!(items => items@[i as int]));
                    let c = items[i].duplicate();
                    out.push(c);
                    i = i + 1;
                }
                proof {
                    lemma_items_views(*items);
                    lemma_items_views(out);
                    assert(views(out@) =~= views(items@));
                }
                if matches!(self, Value::Array(_)) {
                    Value::Array(out)
                } else {
                    Value::UnorderedSet(out)
                }
            },
            Value::Dictionary(pairs) => {
                let mut out: Vec<(Value, Value)> = Vec::new();
                let mut i: usize = 0;
                while i < pairs.len()
                    invariant
                        i <= pairs@.len(),
                        out@.len() == i,
                        *self == Value::Dictionary(*pairs),
                        forall|j: int|
                            0 <= j < i ==> (#[trigger] out@[j]).0@ == pairs@[j].0@ && out@[j].1@ == pairs@[j].1@,
                    decreases pairs@.len() - i,
                {
                    assert(decreases_to!(*self => self->Dictionary_0));
                    assert(decreases_to!(pairs => pairs@[i as int]));
                    assert(decreases_to!(pairs@[i as int] => pairs@[i as int].0));
                    assert(decreases_to!(pairs@[i as int] => pairs@[i as int].1));
                    let k = pairs[i].0.duplicate();
                    let v = pairs[i].1.duplicate();
                    out.push((k, v));
                    i = i + 1;
                }
                proof {
                    lemma_pairs_views(*pairs);
                    lemma_pairs_views(out);
                    assert(pair_views(out@) =~= pair_views(pairs@));
                }
                Value::Dictionary(out)
            },
        }
    }
}

impl Clone for Value {
    fn clone(&self) -> (r: Self)
        ensures
            r@ == self@,
    {
        self.duplicate()
    }
}

} // verus!
