use vstd::prelude::*;

verus! {

/// How many units make one: a `Number` counts in steps of `10^-18`.
pub const UNITS_PER_ONE: i128 = 1_000_000_000_000_000_000;

/// The tolerance under which two numbers compare equal, in units: the machine epsilon
/// of a double (about `2.22e-16`), rounded up to whole units.
pub const EPSILON_UNITS: i128 = 223;

/// A JSON number, held exactly as a whole count of `10^-18` units.
#[derive(Clone, Copy, Debug, PartialEq, Eq)]
pub struct Number {
    pub units: i128,
}

/// A JSON value: the payload of a row, and the right-hand side of a field condition.
#[derive(Debug, PartialEq)]
pub enum Value {
    Null,
    Bool(bool),
    Number(Number),
    Str(String),
    Array(Vec<Value>),
    /// Members in order; keys are unique when the value comes from JSON text.
    Object(Vec<(String, Value)>),
}

/// The value of the first member named `key` among `entries[i..]`.
pub open spec fn lookup_from(entries: Seq<(String, Value)>, key: Seq<char>, i: int) -> Option<Value>
    decreases entries.len() - i,
{
    if i < 0 || i >= entries.len() {
        None
    } else if entries[i].0@ == key {
        Some(entries[i].1)
    } else {
        lookup_from(entries, key, i + 1)
    }
}

/// The member `key` of `v`; `None` where `v` is no object or has no such member.
pub open spec fn object_field(v: Value, key: Seq<char>) -> Option<Value> {
    match v {
        Value::Object(entries) => lookup_from(entries@, key, 0),
        _ => None,
    }
}

impl Number {
    /// The whole number `n`.
    pub fn from_i64(n: i64) -> (r: Number)
        ensures
            r.units == n * UNITS_PER_ONE,
    {
        assert(n * UNITS_PER_ONE <= i128::MAX && n * UNITS_PER_ONE >= i128::MIN) by (nonlinear_arith)
            requires
                i64::MIN <= n <= i64::MAX,
        ;
        Number { units: n as i128 * UNITS_PER_ONE }
    }
}

impl Value {
    /// The member `key` of this value, where it is an object that has one.
    pub fn get(&self, key: &String) -> (r: Option<&Value>)
        ensures
            r matches Some(v) ==> object_field(*self, key@) == Some(*v),
            r is None ==> object_field(*self, key@) is None,
    {
        match self {
            Value::Object(entries) => {
                let mut i: usize = 0;
                while i < entries.len()
                    invariant
                        i <= entries@.len(),
                        object_field(*self, key@) == lookup_from(entries@, key@, 0),
                        lookup_from(entries@, key@, 0) == lookup_from(entries@, key@, i as int),
                    decreases entries@.len() - i,
                {
                    if entries[i].0 == *key {
                        assert(entries@[i as int].0@ == key@);
                        return Some(&entries[i].1);
                    }
                    i = i + 1;
                }
                None
            },
            _ => None,
        }
    }
}

} // verus!
