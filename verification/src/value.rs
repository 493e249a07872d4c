//! The generic tree-shaped value model both comparison operands are
//! normalized into: null, booleans, numbers, text, arrays and objects.

use vstd::prelude::*;

verus! {

/// A JSON number.  Integer and floating-point representations are kept
/// distinct so that strict numeric comparison can reject cross-kind equality.
///
/// A floating-point number is carried as the IEEE 754 binary64 bit pattern
/// (what `f64::to_bits` returns); every comparison on it is performed exactly,
/// on the rational value those bits denote.
#[derive(Debug, Copy, Clone, PartialEq, Eq, Structural)]
pub enum Number {
    /// A non-negative integer.
    PosInt(u64),
    /// A negative integer; a well-formed value is strictly negative.
    NegInt(i64),
    /// The bit pattern of an `f64`; a well-formed value is finite.
    Float(u64),
}

impl Number {
    /// Well-formed numbers: the integer kinds partition the integers by sign,
    /// and a float is finite (the exponent field is not all ones), since a
    /// JSON document cannot hold a NaN or an infinity.
    pub open spec fn wf(self) -> bool {
        match self {
            Number::PosInt(_) => true,
            Number::NegInt(i) => i < 0,
            Number::Float(bits) => (bits / 0x10_0000_0000_0000u64) % 0x800 != 0x7ff,
        }
    }
}

/// A tree-shaped value: the closed set of variants the comparison engine
/// walks.  Values are immutable once constructed; the engine never mutates
/// its inputs.
#[derive(Debug)]
pub enum Value {
    /// The null value.
    Null,
    /// A boolean.
    Bool(bool),
    /// A number.
    Number(Number),
    /// A text string.
    Text(String),
    /// An ordered sequence of values.
    Array(Vec<Value>),
    /// An ordered mapping from string keys to values; well-formed objects
    /// have unique keys.
    Object(Vec<(String, Value)>),
}

/// The mathematical model of a [`Value`]: text as a sequence of characters,
/// containers as sequences.
pub enum Val {
    /// The null value.
    Null,
    /// A boolean.
    Bool(bool),
    /// A number.
    Num(Number),
    /// A text string.
    Text(Seq<char>),
    /// An array.
    Arr(Seq<Val>),
    /// An object: ordered key-value pairs.
    Obj(Seq<(Seq<char>, Val)>),
}

/// The model of a [`Value`], defined structurally.
pub open spec fn vview(v: Value) -> Val
    decreases v,
{
    match v {
        Value::Null => Val::Null,
        Value::Bool(b) => Val::Bool(b),
        Value::Number(n) => Val::Num(n),
        Value::Text(s) => Val::Text(s@),
        Value::Array(elems) => Val::Arr(seq_vview(elems@)),
        Value::Object(entries) => Val::Obj(entries_vview(entries@)),
    }
}

/// The models of a sequence of values.
pub open spec fn seq_vview(s: Seq<Value>) -> Seq<Val>
    decreases s,
{
    if s.len() == 0 {
        Seq::empty()
    } else {
        seq![vview(s[0])] + seq_vview(s.drop_first())
    }
}

/// The models of a sequence of object entries.
pub open spec fn entries_vview(s: Seq<(String, Value)>) -> Seq<(Seq<char>, Val)>
    decreases s,
    via entries_vview_decreases
{
    if s.len() == 0 {
        Seq::empty()
    } else {
        seq![(s[0].0@, vview(s[0].1))] + entries_vview(s.drop_first())
    }
}

#[via_fn]
proof fn entries_vview_decreases(s: Seq<(String, Value)>) {
    if s.len() > 0 {
        assert(decreases_to!(s => s[0]));
        assert(decreases_to!(s[0] => s[0].1));
    }
}

/// `seq_vview` is the elementwise model.
pub proof fn lemma_seq_vview(s: Seq<Value>)
    ensures
        seq_vview(s).len() == s.len(),
        forall|i: int| 0 <= i < s.len() ==> seq_vview(s)[i] == vview(#[trigger] s[i]),
    decreases s.len(),
{
    if s.len() > 0 {
        lemma_seq_vview(s.drop_first());
        assert forall|i: int| 0 <= i < s.len() implies seq_vview(s)[i] == vview(s[i]) by {
            if i > 0 {
                assert(s.drop_first()[i - 1] == s[i]);
            }
        }
    }
}

/// `entries_vview` is the elementwise model.
pub proof fn lemma_entries_vview(s: Seq<(String, Value)>)
    ensures
        entries_vview(s).len() == s.len(),
        forall|i: int|
            0 <= i < s.len() ==> entries_vview(s)[i] == ((#[trigger] s[i]).0@, vview(s[i].1)),
    decreases s.len(),
{
    if s.len() > 0 {
        lemma_entries_vview(s.drop_first());
        assert forall|i: int| 0 <= i < s.len() implies entries_vview(s)[i] == (s[i].0@, vview(
            s[i].1,
        )) by {
            if i > 0 {
                assert(s.drop_first()[i - 1] == s[i]);
            }
        }
    }
}

impl View for Value {
    type V = Val;

    open spec fn view(&self) -> Val {
        vview(*self)
    }
}

/// The index of the first entry with key `k`, or `entries.len()` when no
/// entry has that key.
pub open spec fn key_idx(entries: Seq<(Seq<char>, Val)>, k: Seq<char>) -> int
    decreases entries.len(),
{
    if entries.len() == 0 {
        0
    } else if entries[0].0 == k {
        0
    } else {
        1 + key_idx(entries.drop_first(), k)
    }
}

/// Whether some entry has key `k`.
pub open spec fn has_key(entries: Seq<(Seq<char>, Val)>, k: Seq<char>) -> bool {
    key_idx(entries, k) < entries.len()
}

/// The value of the first entry with key `k` (meaningful when `has_key`).
pub open spec fn lookup(entries: Seq<(Seq<char>, Val)>, k: Seq<char>) -> Val {
    entries[key_idx(entries, k)].1
}

/// `key_idx` stays within bounds and names the first entry with the given
/// key.
pub proof fn lemma_key_idx(entries: Seq<(Seq<char>, Val)>, k: Seq<char>)
    ensures
        0 <= key_idx(entries, k) <= entries.len(),
        key_idx(entries, k) < entries.len() ==> entries[key_idx(entries, k)].0 == k,
        forall|i: int| 0 <= i < key_idx(entries, k) ==> entries[i].0 != k,
        key_idx(entries, k) == entries.len() ==> forall|i: int|
            0 <= i < entries.len() ==> entries[i].0 != k,
    decreases entries.len(),
{
    if entries.len() != 0 && entries[0].0 != k {
        lemma_key_idx(entries.drop_first(), k);
        assert forall|i: int| 0 <= i < key_idx(entries, k) implies entries[i].0 != k by {
            if i > 0 {
                assert(entries.drop_first()[i - 1] == entries[i]);
            }
        }
        if key_idx(entries, k) == entries.len() {
            assert forall|i: int| 0 <= i < entries.len() implies entries[i].0 != k by {
                if i > 0 {
                    assert(entries.drop_first()[i - 1] == entries[i]);
                }
            }
        }
    }
}

impl Val {
    /// Well-formed model values: numbers are well formed and object keys are
    /// unique at every level.
    pub open spec fn wf(self) -> bool
        decreases self,
    {
        match self {
            Val::Null => true,
            Val::Bool(_) => true,
            Val::Num(n) => n.wf(),
            Val::Text(_) => true,
            Val::Arr(elems) => forall|i: int| 0 <= i < elems.len() ==> (#[trigger] elems[i]).wf(),
            Val::Obj(entries) => {
                &&& forall|i: int, j: int|
                    0 <= i < j < entries.len() ==> (#[trigger] entries[i].0) != (
                    #[trigger] entries[j].0)
                &&& forall|i: int| 0 <= i < entries.len() ==> (#[trigger] entries[i].1).wf()
            },
        }
    }
}

/// Compare two string slices character by character.
pub fn str_eq(a: &str, b: &str) -> (r: bool)
    ensures
        r == (a@ == b@),
{
    let la = a.unicode_len();
    let lb = b.unicode_len();
    if la != lb {
        return false;
    }
    let mut i: usize = 0;
    while i < la
        invariant
            i <= la,
            la == a@.len(),
            la == b@.len(),
            forall|j: int| 0 <= j < i ==> a@[j] == b@[j],
        decreases la - i,
    {
        if a.get_char(i) != b.get_char(i) {
            return false;
        }
        i = i + 1;
    }
    proof {
        assert(a@ =~= b@);
    }
    true
}

impl Value {
    /// A deep copy of this value; the model value is unchanged.
    #[verifier::loop_isolation(false)]
    pub fn duplicate(&self) -> (r: Value)
        ensures
            r@ == self@,
        decreases self,
    {
        match self {
            Value::Null => Value::Null,
            Value::Bool(b) => Value::Bool(*b),
            Value::Number(n) => Value::Number(*n),
            Value::Text(s) => Value::Text(String::from_str(s.as_str())),
            Value::Array(elems) => {
                let mut out: Vec<Value> = Vec::new();
                let mut i: usize = 0;
                while i < elems.len()
                    invariant
                        i <= elems@.len(),
                        out@.len() == i as int,
                        forall|j: int| 0 <= j < i ==> out@[j]@ == elems@[j]@,
                    decreases elems@.len() - i,
                {
                    proof {
                        assert(decreases_to!(*self => (*self)->Array_0));
                        assert(decreases_to!(*elems => elems@[i as int]));
                    }
                    let d = elems[i].duplicate();
                    out.push(d);
                    i = i + 1;
                }
                let r = Value::Array(out);
                proof {
                    lemma_seq_vview(out@);
                    lemma_seq_vview(elems@);
                    assert(self@ == Val::Arr(seq_vview(elems@)));
                    assert forall|j: int| 0 <= j < out@.len() implies seq_vview(out@)[j]
                        == seq_vview(elems@)[j] by {
                        assert(out@[j]@ == elems@[j]@);
                    }
                    assert(r@->Arr_0 =~= self@->Arr_0);
                }
                r
            },
            Value::Object(entries) => {
                let mut out: Vec<(String, Value)> = Vec::new();
                let mut i: usize = 0;
                while i < entries.len()
                    invariant
                        i <= entries@.len(),
                        out@.len() == i as int,
                        forall|j: int|
                            0 <= j < i ==> out@[j].0@ == entries@[j].0@ && out@[j].1@
                                == entries@[j].1@,
                    decreases entries@.len() - i,
                {
                    proof {
                        assert(decreases_to!(*self => (*self)->Object_0));
                        assert(decreases_to!(*entries => entries@[i as int]));
                        assert(decreases_to!(entries@[i as int] => entries@[i as int].1));
                    }
                    let k = String::from_str(entries[i].0.as_str());
                    let d = entries[i].1.duplicate();
                    out.push((k, d));
                    i = i + 1;
                }
                let r = Value::Object(out);
                proof {
                    lemma_entries_vview(out@);
                    lemma_entries_vview(entries@);
                    assert(self@ == Val::Obj(entries_vview(entries@)));
                    assert forall|j: int| 0 <= j < out@.len() implies entries_vview(out@)[j]
                        == entries_vview(entries@)[j] by {
                        assert(out@[j].0@ == entries@[j].0@ && out@[j].1@ == entries@[j].1@);
                    }
                    assert(r@->Obj_0 =~= self@->Obj_0);
                }
                r
            },
        }
    }
}

} // verus!
