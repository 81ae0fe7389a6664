use vstd::prelude::*;

verus! {

/// A single cell of a column. A floating-point cell carries the raw
/// IEEE-754 bit pattern of the double, so every cell is plain data.
pub enum Value {
    Null,
    Bool(bool),
    Int(i64),
    UInt(u64),
    Str(String),
    Float(u64),
}

/// The mathematical shape of a cell: a string cell is its character
/// sequence, every other cell is its payload.
pub ghost enum ValueModel {
    Null,
    Bool(bool),
    Int(i64),
    UInt(u64),
    Str(Seq<char>),
    Float(u64),
}

impl View for Value {
    type V = ValueModel;

    open spec fn view(&self) -> ValueModel {
        match self {
            Value::Null => ValueModel::Null,
            Value::Bool(b) => ValueModel::Bool(*b),
            Value::Int(i) => ValueModel::Int(*i),
            Value::UInt(u) => ValueModel::UInt(*u),
            Value::Str(s) => ValueModel::Str(s@),
            Value::Float(bits) => ValueModel::Float(*bits),
        }
    }
}

impl DeepView for Value {
    type V = ValueModel;

    open spec fn deep_view(&self) -> ValueModel {
        self.view()
    }
}

impl Value {
    /// Cell equality as grouping understands it: a null cell is equal to
    /// another null cell and to nothing else.
    pub fn eq_value(&self, other: &Value) -> (r: bool)
        ensures
            r == (self@ == other@),
    {
        match (self, other) {
            (Value::Null, Value::Null) => true,
            (Value::Bool(a), Value::Bool(b)) => a == b,
            (Value::Int(a), Value::Int(b)) => a == b,
            (Value::UInt(a), Value::UInt(b)) => a == b,
            (Value::Str(a), Value::Str(b)) => a.eq(b),
            (Value::Float(a), Value::Float(b)) => a == b,
            _ => false,
        }
    }

    /// A copy of the cell with the same model.
    pub fn dup(&self) -> (r: Value)
        ensures
            r@ == self@,
    {
        match self {
            Value::Null => Value::Null,
            Value::Bool(b) => Value::Bool(*b),
            Value::Int(i) => Value::Int(*i),
            Value::UInt(u) => Value::UInt(*u),
            Value::Str(s) => Value::Str(s.clone()),
            Value::Float(bits) => Value::Float(*bits),
        }
    }
}

/// Equality of two cell vectors, element by element.
pub fn values_eq(a: &Vec<Value>, b: &Vec<Value>) -> (r: bool)
    ensures
        r == (a.deep_view() == b.deep_view()),
{
    if a.len() != b.len() {
        assert(a.deep_view().len() != b.deep_view().len());
        return false;
    }
    let n = a.len();
    let mut i: usize = 0;
    while i < n
        invariant
            n == a.len() == b.len(),
            i <= n,
            forall|k: int| 0 <= k < i ==> a.deep_view()[k] == b.deep_view()[k],
        decreases n - i,
    {
        if !a[i].eq_value(&b[i]) {
            assert(a.deep_view()[i as int] != b.deep_view()[i as int]);
            return false;
        }
        i += 1;
    }
    proof {
        assert(a.deep_view() =~= b.deep_view());
    }
    true
}

/// A copy of a cell vector with the same model.
pub fn dup_values(a: &Vec<Value>) -> (r: Vec<Value>)
    ensures
        r.deep_view() == a.deep_view(),
{
    let mut out: Vec<Value> = Vec::new();
    let n = a.len();
    let mut i: usize = 0;
    while i < n
        invariant
            n == a.len(),
            i <= n,
            out.len() == i,
            forall|k: int| 0 <= k < i ==> out.deep_view()[k] == a.deep_view()[k],
        decreases n - i,
    {
        out.push(a[i].dup());
        i += 1;
    }
    proof {
        assert(out.deep_view() =~= a.deep_view());
    }
    out
}

} // verus!
