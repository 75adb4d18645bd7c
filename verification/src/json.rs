//! Order-preserving JSON value model.
//!
//! `JsonValue` is the executable tree; `JsonSpec` is its mathematical
//! counterpart, with text as `Seq<char>` and children as `Seq`. Object
//! entries keep their insertion order, which the formatter depends on.
//! Non-integral numbers are kept as a scaled decimal (mantissa and a
//! power-of-ten scale), so the tree never holds a float.

use vstd::prelude::*;

verus! {

/// Mathematical model of a JSON tree.
///
/// `Dec(m, s)` stands for the decimal number `m / 10^s` with `s >= 1`;
/// integers are always `Int`. An object is a sequence of key/value pairs
/// in insertion order.
#[verifier::ext_equal]
pub enum JsonSpec {
    Null,
    Bool(bool),
    Int(int),
    Dec(int, nat),
    Text(Seq<char>),
    Arr(Seq<JsonSpec>),
    Obj(Seq<(Seq<char>, JsonSpec)>),
}

impl JsonSpec {
    /// The keys of an object, in order; empty for other values.
    pub open spec fn keys(self) -> Seq<Seq<char>> {
        match self {
            JsonSpec::Obj(es) => es.map_values(|e: (Seq<char>, JsonSpec)| e.0),
            _ => Seq::empty(),
        }
    }
}

/// Executable JSON tree with insertion-ordered objects.
///
/// `Dec(m, s)` is the decimal `m / 10^s`; a value parsed as an integer is
/// always `Int`, so the two variants also record which JSON syntax (integer
/// or decimal) produced the value.
pub enum JsonValue {
    Null,
    Bool(bool),
    Int(i64),
    Dec(i64, u32),
    Text(String),
    Arr(Vec<JsonValue>),
    Obj(Vec<(String, JsonValue)>),
}

impl JsonValue {
    /// The mathematical value of this tree.
    pub open spec fn deep(self) -> JsonSpec
        decreases self,
    {
        match self {
            JsonValue::Null => JsonSpec::Null,
            JsonValue::Bool(b) => JsonSpec::Bool(b),
            JsonValue::Int(i) => JsonSpec::Int(i as int),
            JsonValue::Dec(m, s) => JsonSpec::Dec(m as int, s as nat),
            JsonValue::Text(s) => JsonSpec::Text(s@),
            JsonValue::Arr(a) => JsonSpec::Arr(deep_list(self->Arr_0@)),
            JsonValue::Obj(o) => JsonSpec::Obj(deep_entries(self->Obj_0@)),
        }
    }
}

/// Model of a sequence of trees, elementwise.
pub open spec fn deep_list(s: Seq<JsonValue>) -> Seq<JsonSpec>
    decreases s,
{
    if s.len() == 0 {
        Seq::empty()
    } else {
        seq![s[0].deep()] + deep_list(s.drop_first())
    }
}

/// Model of a sequence of object entries, elementwise.
pub open spec fn deep_entries(s: Seq<(String, JsonValue)>) -> Seq<(Seq<char>, JsonSpec)>
    decreases s,
{
    if s.len() == 0 {
        Seq::empty()
    } else {
        seq![(s[0].0@, s[0].1.deep())] + deep_entries(s.drop_first())
    }
}

/// `deep_list` keeps length and maps each element to its model.
pub proof fn lemma_deep_list(s: Seq<JsonValue>)
    ensures
        deep_list(s).len() == s.len(),
        forall|i: int| 0 <= i < s.len() ==> deep_list(s)[i] == s[i].deep(),
    decreases s.len(),
{
    if s.len() > 0 {
        lemma_deep_list(s.drop_first());
    }
}

/// `deep_entries` keeps length and maps each entry to its model.
pub proof fn lemma_deep_entries(s: Seq<(String, JsonValue)>)
    ensures
        deep_entries(s).len() == s.len(),
        forall|i: int|
            0 <= i < s.len() ==> deep_entries(s)[i] == (s[i].0@, s[i].1.deep()),
    decreases s.len(),
{
    if s.len() > 0 {
        lemma_deep_entries(s.drop_first());
    }
}

impl DeepView for JsonValue {
    type V = JsonSpec;

    open spec fn deep_view(&self) -> JsonSpec {
        self.deep()
    }
}

/// Structural equality of two trees, decided exactly.
pub fn json_eq(a: &JsonValue, b: &JsonValue) -> (r: bool)
    ensures
        r == (a.deep() == b.deep()),
    decreases *a,
{
    match (a, b) {
        (JsonValue::Null, JsonValue::Null) => true,
        (JsonValue::Bool(x), JsonValue::Bool(y)) => x == y,
        (JsonValue::Int(x), JsonValue::Int(y)) => x == y,
        (JsonValue::Dec(mx, sx), JsonValue::Dec(my, sy)) => mx == my && sx == sy,
        (JsonValue::Text(x), JsonValue::Text(y)) => x.eq(y),
        (JsonValue::Arr(x), JsonValue::Arr(y)) => {
            proof {
                lemma_deep_list(x@);
                lemma_deep_list(y@);
            }
            if x.len() != y.len() {
                return false;
            }
            let mut i: usize = 0;
            let mut same = true;
            while i < x.len()
                invariant
                    x@.len() == y@.len(),
                    i <= x@.len(),
                    a == JsonValue::Arr(*x),
                    b == JsonValue::Arr(*y),
                    same == forall|j: int| 0 <= j < i ==> x@[j].deep() == y@[j].deep(),
                decreases x@.len() - i,
            {
                proof {
                    assert(decreases_to!(*a => x@[i as int])) by {
                        assert(decreases_to!(*a => a->Arr_0));
                    }
                }
                let e = json_eq(&x[i], &y[i]);
                same = same && e;
                i = i + 1;
            }
            proof {
                lemma_deep_list(x@);
                lemma_deep_list(y@);
                if same {
                    assert(deep_list(x@) =~= deep_list(y@));
                } else {
                    let j = choose|j: int| 0 <= j < x@.len() && x@[j].deep() != y@[j].deep();
                    assert(deep_list(x@)[j] != deep_list(y@)[j]);
                }
            }
            same
        },
        (JsonValue::Obj(x), JsonValue::Obj(y)) => {
            proof {
                lemma_deep_entries(x@);
                lemma_deep_entries(y@);
            }
            if x.len() != y.len() {
                return false;
            }
            let mut i: usize = 0;
            let mut same = true;
            while i < x.len()
                invariant
                    x@.len() == y@.len(),
                    i <= x@.len(),
                    a == JsonValue::Obj(*x),
                    b == JsonValue::Obj(*y),
                    same == forall|j: int|
                        0 <= j < i ==> x@[j].0@ == y@[j].0@ && x@[j].1.deep() == y@[j].1.deep(),
                decreases x@.len() - i,
            {
                proof {
                    assert(decreases_to!(*a => x@[i as int].1)) by {
                        assert(decreases_to!(*a => a->Obj_0));
                    }
                }
                let keys = x[i].0.eq(&y[i].0);
                let vals = json_eq(&x[i].1, &y[i].1);
                same = same && keys && vals;
                i = i + 1;
            }
            proof {
                lemma_deep_entries(x@);
                lemma_deep_entries(y@);
                if same {
                    assert(deep_entries(x@) =~= deep_entries(y@));
                } else {
                    let j = choose|j: int|
                        0 <= j < x@.len() && !(x@[j].0@ == y@[j].0@ && x@[j].1.deep() == y@[
                            j
                        ].1.deep());
                    assert(deep_entries(x@)[j] != deep_entries(y@)[j]);
                }
            }
            same
        },
        _ => false,
    }
}

/// A copy of the tree with the same mathematical value.
pub fn json_clone(v: &JsonValue) -> (r: JsonValue)
    ensures
        r.deep() == v.deep(),
    decreases *v,
{
    match v {
        JsonValue::Null => JsonValue::Null,
        JsonValue::Bool(b) => JsonValue::Bool(*b),
        JsonValue::Int(i) => JsonValue::Int(*i),
        JsonValue::Dec(m, s) => JsonValue::Dec(*m, *s),
        JsonValue::Text(s) => JsonValue::Text(s.clone()),
        JsonValue::Arr(a) => {
            let mut out: Vec<JsonValue> = Vec::new();
            let mut i: usize = 0;
            while i < a.len()
                invariant
                    i <= a@.len(),
                    v == JsonValue::Arr(*a),
                    out@.len() == i,
                    forall|j: int| 0 <= j < i ==> out@[j].deep() == a@[j].deep(),
                decreases a@.len() - i,
            {
                proof {
                    assert(decreases_to!(*v => a@[i as int])) by {
                        assert(decreases_to!(*v => v->Arr_0));
                    }
                }
                let c = json_clone(&a[i]);
                out.push(c);
                i = i + 1;
            }
            proof {
                lemma_deep_list(out@);
                lemma_deep_list(a@);
                assert(deep_list(out@) =~= deep_list(a@));
            }
            JsonValue::Arr(out)
        },
        JsonValue::Obj(o) => {
            let mut out: Vec<(String, JsonValue)> = Vec::new();
            let mut i: usize = 0;
            while i < o.len()
                invariant
                    i <= o@.len(),
                    v == JsonValue::Obj(*o),
                    out@.len() == i,
                    forall|j: int|
                        0 <= j < i ==> out@[j].0@ == o@[j].0@ && out@[j].1.deep() == o@[
                            j
                        ].1.deep(),
                decreases o@.len() - i,
            {
                proof {
                    assert(decreases_to!(*v => o@[i as int].1)) by {
                        assert(decreases_to!(*v => v->Obj_0));
                    }
                }
                let k = o[i].0.clone();
                let c = json_clone(&o[i].1);
                out.push((k, c));
                i = i + 1;
            }
            proof {
                lemma_deep_entries(out@);
                lemma_deep_entries(o@);
                assert(deep_entries(out@) =~= deep_entries(o@));
            }
            JsonValue::Obj(out)
        },
    }
}

} // verus!
