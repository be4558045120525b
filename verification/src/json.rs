use vstd::prelude::*;

verus! {

/// A JSON value as the core sees it. Numbers are modelled as signed 64-bit
/// integers, which covers every value the protocol itself produces
/// (acknowledgement ids and placeholder indices). Object member order is kept,
/// so a value has one canonical shape.
#[derive(Debug)]
pub enum Json {
    Null,
    Bool(bool),
    Int(i64),
    Str(String),
    Arr(Vec<Json>),
    Obj(Vec<(String, Json)>),
}

/// Structural equality of two JSON values, comparing strings by contents.
pub open spec fn json_equal(a: Json, b: Json) -> bool
    decreases a,
{
    match (a, b) {
        (Json::Null, Json::Null) => true,
        (Json::Bool(x), Json::Bool(y)) => x == y,
        (Json::Int(x), Json::Int(y)) => x == y,
        (Json::Str(x), Json::Str(y)) => x@ == y@,
        (Json::Arr(x), Json::Arr(y)) => {
            &&& x@.len() == y@.len()
            &&& forall|i: int| 0 <= i < x@.len() ==> json_equal(#[trigger] x@[i], y@[i])
        },
        (Json::Obj(x), Json::Obj(y)) => {
            &&& x@.len() == y@.len()
            &&& forall|i: int|
                0 <= i < x@.len() ==> (#[trigger] x@[i]).0@ == y@[i].0@ && json_equal(
                    x@[i].1,
                    y@[i].1,
                )
        },
        _ => false,
    }
}

impl Json {
    /// Decides structural equality.
    #[verifier::loop_isolation(false)]
    pub fn deep_eq(&self, other: &Json) -> (r: bool)
        ensures
            r == json_equal(*self, *other),
        decreases *self,
    {
        match (self, other) {
            (Json::Null, Json::Null) => true,
            (Json::Bool(x), Json::Bool(y)) => *x == *y,
            (Json::Int(x), Json::Int(y)) => *x == *y,
            (Json::Str(x), Json::Str(y)) => *x == *y,
            (Json::Arr(x), Json::Arr(y)) => {
                if x.len() != y.len() {
                    return false;
                }
                let mut i: usize = 0;
                while i < x.len()
                    invariant
                        i <= x@.len(),
                        x@.len() == y@.len(),
                        forall|k: int| 0 <= k < i ==> json_equal(#[trigger] x@[k], y@[k]),
                    decreases x@.len() - i,
                {
                    if !x[i].deep_eq(&y[i]) {
                        return false;
                    }
                    i += 1;
                }
                true
            },
            (Json::Obj(x), Json::Obj(y)) => {
                if x.len() != y.len() {
                    return false;
                }
                let mut i: usize = 0;
                while i < x.len()
                    invariant
                        i <= x@.len(),
                        x@.len() == y@.len(),
                        forall|k: int|
                            0 <= k < i ==> (#[trigger] x@[k]).0@ == y@[k].0@ && json_equal(
                                x@[k].1,
                                y@[k].1,
                            ),
                    decreases x@.len() - i,
                {
                    if !(x[i].0 == y[i].0) {
                        return false;
                    }
                    if !x[i].1.deep_eq(&y[i].1) {
                        return false;
                    }
                    i += 1;
                }
                true
            },
            _ => false,
        }
    }
}

/// Whether a JSON value is a binary-attachment placeholder
/// `{"_placeholder": true, "num": n}`, and if so which index it carries.
pub open spec fn placeholder_index(j: Json) -> Option<int> {
    match j {
        Json::Obj(fields) => if {
            &&& fields@.len() == 2
            &&& fields@[0].0@ == "_placeholder"@
            &&& fields@[0].1 == Json::Bool(true)
            &&& fields@[1].0@ == "num"@
            &&& fields@[1].1 matches Json::Int(n) && n >= 0
        } {
            match fields@[1].1 {
                Json::Int(n) => Some(n as int),
                _ => None,
            }
        } else {
            None
        },
        _ => None,
    }
}

/// Builds the placeholder value for attachment index `n`.
pub fn placeholder(n: u32) -> (j: Json)
    ensures
        placeholder_index(j) == Some(n as int),
{
    let mut fields: Vec<(String, Json)> = Vec::new();
    fields.push((String::from_str("_placeholder"), Json::Bool(true)));
    fields.push((String::from_str("num"), Json::Int(n as i64)));
    Json::Obj(fields)
}

impl Json {
    /// Returns the attachment index if this value is a placeholder.
    pub fn as_placeholder(&self) -> (r: Option<u64>)
        ensures
            match r {
                Some(n) => placeholder_index(*self) == Some(n as int),
                None => placeholder_index(*self) is None,
            },
    {
        match self {
            Json::Obj(fields) => {
                if fields.len() != 2 {
                    return None;
                }
                let key0 = String::from_str("_placeholder");
                let key1 = String::from_str("num");
                if !(fields[0].0 == key0) || !(fields[1].0 == key1) {
                    return None;
                }
                let flag_ok = match &fields[0].1 {
                    Json::Bool(b) => *b,
                    _ => false,
                };
                if !flag_ok {
                    return None;
                }
                match &fields[1].1 {
                    Json::Int(n) => {
                        if *n >= 0 {
                            Some(*n as u64)
                        } else {
                            None
                        }
                    },
                    _ => None,
                }
            },
            _ => None,
        }
    }
}

/// All placeholders inside `j` point into an attachment sequence of length
/// `n`. A placeholder object is a leaf: its own members are not inspected.
pub open spec fn placeholders_valid(j: Json, n: int) -> bool
    decreases j,
{
    match placeholder_index(j) {
        Some(k) => 0 <= k < n,
        None => match j {
            Json::Arr(items) => forall|i: int|
                0 <= i < items@.len() ==> placeholders_valid(#[trigger] items@[i], n),
            Json::Obj(fields) => forall|i: int|
                0 <= i < fields@.len() ==> placeholders_valid((#[trigger] fields@[i]).1, n),
            _ => true,
        },
    }
}

impl Json {
    /// Decides whether every placeholder index inside `self` lies in
    /// `[0, n)`.
    #[verifier::loop_isolation(false)]
    pub fn placeholders_in_range(&self, n: usize) -> (r: bool)
        ensures
            r == placeholders_valid(*self, n as int),
        decreases *self,
    {
        match self.as_placeholder() {
            Some(k) => k < n as u64,
            None => match self {
                Json::Arr(items) => {
                    let mut i: usize = 0;
                    while i < items.len()
                        invariant
                            i <= items@.len(),
                            forall|k: int|
                                0 <= k < i ==> placeholders_valid(#[trigger] items@[k], n as int),
                        decreases items@.len() - i,
                    {
                        if !items[i].placeholders_in_range(n) {
                            return false;
                        }
                        i += 1;
                    }
                    true
                },
                Json::Obj(fields) => {
                    let mut i: usize = 0;
                    while i < fields.len()
                        invariant
                            i <= fields@.len(),
                            forall|k: int|
                                0 <= k < i ==> placeholders_valid(
                                    (#[trigger] fields@[k]).1,
                                    n as int,
                                ),
                        decreases fields@.len() - i,
                    {
                        if !fields[i].1.placeholders_in_range(n) {
                            return false;
                        }
                        i += 1;
                    }
                    true
                },
                _ => true,
            },
        }
    }
}

} // verus!
