//! The comparison engine: walks two value trees in lock-step, tracks the
//! traversal path, and emits a pre-order list of typed differences.

use vstd::prelude::*;
use vstd::pervasive::VecAdditionalExecFns;
use crate::config::ArraySortingMode;
use crate::config::CompareMode;
use crate::config::Config;
use crate::num::number_equiv;
use crate::num::number_equiv_exec;
use crate::value::Val;
use crate::value::Value;
use crate::value::has_key;
use crate::value::key_idx;
use crate::value::lookup;
use crate::value::lemma_key_idx;
use crate::value::entries_vview;
use crate::value::lemma_entries_vview;
use crate::value::lemma_seq_vview;
use crate::value::seq_vview;
use crate::value::str_eq;

verus! {

/// Which operand a missing entry is absent from.  Under strict comparison
/// the operands are symmetric peers ("lhs"/"rhs"); under inclusive
/// comparison the first operand is the actual value, so `Lhs` reads
/// "missing from actual".
#[derive(Debug, Copy, Clone, PartialEq, Eq, Structural)]
pub enum Side {
    /// The first operand (the actual value under inclusive comparison).
    Lhs,
    /// The second operand (the expected pattern under inclusive comparison).
    Rhs,
}

/// One segment of a path into a value tree.
#[derive(Debug)]
pub enum Key {
    /// An object key.
    Field(String),
    /// An array index.
    Idx(usize),
}

/// The model of a [`Key`].
pub enum KeyV {
    /// An object key.
    Field(Seq<char>),
    /// An array index.
    Idx(int),
}

impl View for Key {
    type V = KeyV;

    open spec fn view(&self) -> KeyV {
        match self {
            Key::Field(s) => KeyV::Field(s@),
            Key::Idx(i) => KeyV::Idx(*i as int),
        }
    }
}

impl Key {
    /// A copy of this segment.
    pub fn duplicate(&self) -> (r: Key)
        ensures
            r@ == self@,
    {
        match self {
            Key::Field(s) => Key::Field(String::from_str(s.as_str())),
            Key::Idx(i) => Key::Idx(*i),
        }
    }
}

/// An ordered sequence of segments identifying a location inside a value
/// tree; the empty path denotes the root.
#[derive(Debug)]
pub struct Path {
    /// The segments, outermost first.
    pub segments: Vec<Key>,
}

impl View for Path {
    type V = Seq<KeyV>;

    open spec fn view(&self) -> Seq<KeyV> {
        Seq::new(self.segments@.len(), |i: int| self.segments@[i]@)
    }
}

impl Path {
    /// The empty path, denoting the root.
    pub fn root() -> (r: Path)
        ensures
            r@ == Seq::<KeyV>::empty(),
    {
        let r = Path { segments: Vec::new() };
        proof {
            assert(r@ =~= Seq::<KeyV>::empty());
        }
        r
    }

    /// A copy of this path.
    pub fn duplicate(&self) -> (r: Path)
        ensures
            r@ == self@,
    {
        let mut segs: Vec<Key> = Vec::new();
        let mut i: usize = 0;
        while i < self.segments.len()
            invariant
                i <= self.segments@.len(),
                segs@.len() == i as int,
                forall|j: int| 0 <= j < i ==> segs@[j]@ == self.segments@[j]@,
            decreases self.segments@.len() - i,
        {
            let d = self.segments[i].duplicate();
            segs.push(d);
            i = i + 1;
        }
        let r = Path { segments: segs };
        proof {
            assert(r@ =~= self@);
        }
        r
    }

    /// A new path with the segment appended; this path is unchanged.
    pub fn push(&self, k: Key) -> (r: Path)
        ensures
            r@ == self@.push(k@),
    {
        let mut r = self.duplicate();
        let ghost kv = k@;
        r.segments.push(k);
        proof {
            assert(r@ =~= self@.push(kv));
        }
        r
    }
}

/// One structured mismatch record, self-contained: it carries a complete
/// path snapshot and the offending value(s).
#[derive(Debug)]
pub enum Difference {
    /// Both sides are present at `path` but are not equivalent atoms, or
    /// their container kinds disagree.
    AtomMismatch {
        /// Where the mismatch occurred.
        path: Path,
        /// What the first operand holds there.
        lhs: Value,
        /// What the second operand holds there.
        rhs: Value,
    },
    /// An object key present on only one side.
    ObjectKeyMissing {
        /// The path of the missing key.
        path: Path,
        /// The operand the key is missing from.
        side: Side,
        /// The value under that key on the other side.
        other: Value,
    },
    /// An array index present on only one side (order-sensitive comparison).
    ArrayIndexMissing {
        /// The path of the missing index.
        path: Path,
        /// The operand the index is missing from.
        side: Side,
        /// The element at that index on the other side.
        other: Value,
    },
    /// An expected array element with no equivalent anywhere in the actual
    /// array (order-insensitive comparison).
    ArrayElementMissing {
        /// The path of the element within the expected array.
        path: Path,
        /// The expected element.
        value: Value,
    },
}

/// The model of a [`Difference`].
pub enum DiffV {
    /// Both sides present but not equivalent.
    AtomMismatch {
        /// Where the mismatch occurred.
        path: Seq<KeyV>,
        /// What the first operand holds there.
        lhs: Val,
        /// What the second operand holds there.
        rhs: Val,
    },
    /// An object key present on only one side.
    ObjectKeyMissing {
        /// The path of the missing key.
        path: Seq<KeyV>,
        /// The operand the key is missing from.
        side: Side,
        /// The value under that key on the other side.
        other: Val,
    },
    /// An array index present on only one side.
    ArrayIndexMissing {
        /// The path of the missing index.
        path: Seq<KeyV>,
        /// The operand the index is missing from.
        side: Side,
        /// The element at that index on the other side.
        other: Val,
    },
    /// An expected element with no equivalent in the actual array.
    ArrayElementMissing {
        /// The path of the element within the expected array.
        path: Seq<KeyV>,
        /// The expected element.
        value: Val,
    },
}

impl View for Difference {
    type V = DiffV;

    open spec fn view(&self) -> DiffV {
        match self {
            Difference::AtomMismatch { path, lhs, rhs } => DiffV::AtomMismatch {
                path: path@,
                lhs: lhs@,
                rhs: rhs@,
            },
            Difference::ObjectKeyMissing { path, side, other } => DiffV::ObjectKeyMissing {
                path: path@,
                side: *side,
                other: other@,
            },
            Difference::ArrayIndexMissing { path, side, other } => DiffV::ArrayIndexMissing {
                path: path@,
                side: *side,
                other: other@,
            },
            Difference::ArrayElementMissing { path, value } => DiffV::ArrayElementMissing {
                path: path@,
                value: value@,
            },
        }
    }
}

/// The models of a list of differences.
pub open spec fn diffs_view(s: Seq<Difference>) -> Seq<DiffV> {
    Seq::new(s.len(), |i: int| s[i]@)
}

/// The first actual-array index at or after `i` that is not yet used and
/// holds an element equivalent to `y`; the array length when there is none.
pub open spec fn find_unused(arr: Val, used: Seq<bool>, y: Val, c: Config, i: int) -> int
    decreases arr, 0int, arr->Arr_0.len() - i,
    via find_unused_decreases
{
    let xs = arr->Arr_0;
    if !(arr is Arr) || i < 0 || i >= xs.len() {
        xs.len() as int
    } else if !used[i] && eq_under(xs[i], y, c) {
        i
    } else {
        find_unused(arr, used, y, c, i + 1)
    }
}

#[via_fn]
proof fn find_unused_decreases(arr: Val, used: Seq<bool>, y: Val, c: Config, i: int) {
    let xs = arr->Arr_0;
    if arr is Arr && 0 <= i < xs.len() {
        assert(decreases_to!(arr => xs));
        assert(decreases_to!(xs => xs[i]));
        assert(decreases_to!(arr => xs[i]));
    }
}

/// Greedy order-insensitive containment: every expected element from index
/// `j` on finds some equivalent, not-yet-used element of the actual array
/// `arr`, consuming the earliest such element each time.
pub open spec fn greedy_ok(arr: Val, ys: Seq<Val>, c: Config, j: int, used: Seq<bool>) -> bool
    decreases arr, 1int, ys.len() - j,
{
    if j < 0 || j >= ys.len() {
        true
    } else {
        let xs = arr->Arr_0;
        let i = find_unused(arr, used, ys[j], c, 0);
        if i < xs.len() {
            greedy_ok(arr, ys, c, j + 1, used.update(i, true))
        } else {
            false
        }
    }
}

/// Order-sensitive array equivalence from index `i` on: every remaining
/// index up to the walk's limit is present on both sides and the elements
/// there are equivalent.
pub open spec fn eq_arr(a: Val, b: Val, c: Config, i: int) -> bool
    decreases a, 1int, arr_limit(a, b, c) - i,
    via eq_arr_decreases
{
    let xs = a->Arr_0;
    let ys = b->Arr_0;
    if !(a is Arr) || !(b is Arr) || i < 0 || i >= arr_limit(a, b, c) {
        true
    } else if i < xs.len() && i < ys.len() {
        eq_under(xs[i], ys[i], c) && eq_arr(a, b, c, i + 1)
    } else {
        false
    }
}

#[via_fn]
proof fn eq_arr_decreases(a: Val, b: Val, c: Config, i: int) {
    if a is Arr && b is Arr && 0 <= i < arr_limit(a, b, c) {
        let xs = a->Arr_0;
        if i < xs.len() {
            assert(decreases_to!(a => xs));
            assert(decreases_to!(xs => xs[i]));
            assert(decreases_to!(a => xs[i]));
        }
    }
}

/// Strict object equivalence, first operand's side, from entry `i` on: each
/// remaining key exists on the other side with an equivalent value.
pub open spec fn eq_obj_own(a: Val, b: Val, c: Config, i: int) -> bool
    decreases a, 1int, a->Obj_0.len() - i,
    via eq_obj_own_decreases
{
    let aes = a->Obj_0;
    let bes = b->Obj_0;
    if !(a is Obj) || i < 0 || i >= aes.len() {
        true
    } else if has_key(bes, aes[i].0) {
        eq_under(aes[i].1, lookup(bes, aes[i].0), c) && eq_obj_own(a, b, c, i + 1)
    } else {
        false
    }
}

#[via_fn]
proof fn eq_obj_own_decreases(a: Val, b: Val, c: Config, i: int) {
    let aes = a->Obj_0;
    if a is Obj && 0 <= i < aes.len() {
        assert(decreases_to!(a => aes));
        assert(decreases_to!(aes => aes[i]));
        assert(decreases_to!(a => aes[i]));
        assert(decreases_to!(aes[i] => aes[i].1));
        assert(decreases_to!(a => aes[i].1));
    }
}

/// Strict object equivalence, second operand's side, from entry `j` on:
/// each remaining key also exists on the first side.
pub open spec fn eq_obj_other(a: Val, b: Val, c: Config, j: int) -> bool
    decreases b->Obj_0.len() - j,
{
    let aes = a->Obj_0;
    let bes = b->Obj_0;
    if !(b is Obj) || j < 0 || j >= bes.len() {
        true
    } else {
        has_key(aes, bes[j].0) && eq_obj_other(a, b, c, j + 1)
    }
}

/// Inclusive object containment from expected entry `j` on: each remaining
/// expected key exists in the actual object with an equivalent value.
pub open spec fn eq_obj_inc(a: Val, b: Val, c: Config, j: int) -> bool
    decreases a, 1int, b->Obj_0.len() - j,
    via eq_obj_inc_decreases
{
    let aes = a->Obj_0;
    let bes = b->Obj_0;
    if !(a is Obj) || !(b is Obj) || j < 0 || j >= bes.len() {
        true
    } else if has_key(aes, bes[j].0) {
        eq_under(lookup(aes, bes[j].0), bes[j].1, c) && eq_obj_inc(a, b, c, j + 1)
    } else {
        false
    }
}

#[via_fn]
proof fn eq_obj_inc_decreases(a: Val, b: Val, c: Config, j: int) {
    let aes = a->Obj_0;
    let bes = b->Obj_0;
    if a is Obj && b is Obj && 0 <= j < bes.len() && has_key(aes, bes[j].0) {
        lemma_key_idx(aes, bes[j].0);
        let idx = key_idx(aes, bes[j].0);
        assert(decreases_to!(a => aes));
        assert(decreases_to!(aes => aes[idx]));
        assert(decreases_to!(a => aes[idx]));
        assert(decreases_to!(aes[idx] => aes[idx].1));
        assert(decreases_to!(a => aes[idx].1));
    }
}

/// Whether two model values are equivalent under a configuration: the
/// outcome the engine's empty diff list reports.  Under inclusive
/// comparison `a` is the actual value and `b` the expected pattern.
pub open spec fn eq_under(a: Val, b: Val, c: Config) -> bool
    decreases a, 2int, 0int,
{
    match (a, b) {
        (Val::Null, Val::Null) => true,
        (Val::Bool(x), Val::Bool(y)) => x == y,
        (Val::Num(x), Val::Num(y)) => number_equiv(x, y, c.numeric_mode, c.float_compare_mode),
        (Val::Text(x), Val::Text(y)) => x == y,
        (Val::Arr(xs), Val::Arr(ys)) => {
            if c.array_sorting_mode == ArraySortingMode::Ignore {
                greedy_ok(a, ys, c, 0, Seq::new(xs.len(), |i: int| false))
            } else {
                eq_arr(a, b, c, 0)
            }
        },
        (Val::Obj(aes), Val::Obj(bes)) => {
            if c.compare_mode == CompareMode::Strict {
                eq_obj_own(a, b, c, 0) && eq_obj_other(a, b, c, 0)
            } else {
                eq_obj_inc(a, b, c, 0)
            }
        },
        _ => false,
    }
}

/// One atom-mismatch record.
pub open spec fn atom(pfx: Seq<KeyV>, a: Val, b: Val) -> Seq<DiffV> {
    seq![DiffV::AtomMismatch { path: pfx, lhs: a, rhs: b }]
}

/// How many indices an order-sensitive array comparison visits: under
/// strict comparison every index of either side, under inclusive comparison
/// the expected array's indices.
pub open spec fn arr_limit(a: Val, b: Val, c: Config) -> int {
    let xs = a->Arr_0;
    let ys = b->Arr_0;
    if c.compare_mode == CompareMode::Strict {
        if xs.len() >= ys.len() {
            xs.len() as int
        } else {
            ys.len() as int
        }
    } else {
        ys.len() as int
    }
}

/// The differences an order-sensitive array comparison emits from index `i`
/// on: a recursive comparison where both sides have the index, a
/// missing-index record where only one does.
pub open spec fn arr_diffs(pfx: Seq<KeyV>, a: Val, b: Val, c: Config, i: int) -> Seq<DiffV>
    decreases a, 1int, arr_limit(a, b, c) - i,
    via arr_diffs_decreases
{
    let xs = a->Arr_0;
    let ys = b->Arr_0;
    if !(a is Arr) || !(b is Arr) || i < 0 || i >= arr_limit(a, b, c) {
        Seq::empty()
    } else {
        let here = if i < xs.len() && i < ys.len() {
            spec_diff(pfx.push(KeyV::Idx(i)), xs[i], ys[i], c)
        } else if i < xs.len() {
            seq![DiffV::ArrayIndexMissing {
                path: pfx.push(KeyV::Idx(i)),
                side: Side::Rhs,
                other: xs[i],
            }]
        } else {
            seq![DiffV::ArrayIndexMissing {
                path: pfx.push(KeyV::Idx(i)),
                side: Side::Lhs,
                other: ys[i],
            }]
        };
        here + arr_diffs(pfx, a, b, c, i + 1)
    }
}

#[via_fn]
proof fn arr_diffs_decreases(pfx: Seq<KeyV>, a: Val, b: Val, c: Config, i: int) {
    if a is Arr && b is Arr && 0 <= i < arr_limit(a, b, c) {
        let xs = a->Arr_0;
        if i < xs.len() {
            assert(decreases_to!(a => xs));
            assert(decreases_to!(xs => xs[i]));
            assert(decreases_to!(a => xs[i]));
        }
    }
}

/// The differences the strict object comparison emits while walking the
/// first operand's entries from index `i` on: a recursive comparison for a
/// shared key, a missing-from-rhs record for a key the second operand lacks.
pub open spec fn obj_diffs_own(pfx: Seq<KeyV>, a: Val, b: Val, c: Config, i: int) -> Seq<DiffV>
    decreases a, 1int, a->Obj_0.len() - i,
    via obj_diffs_own_decreases
{
    let aes = a->Obj_0;
    let bes = b->Obj_0;
    if !(a is Obj) || i < 0 || i >= aes.len() {
        Seq::empty()
    } else {
        let k = aes[i].0;
        let here = if has_key(bes, k) {
            spec_diff(pfx.push(KeyV::Field(k)), aes[i].1, lookup(bes, k), c)
        } else {
            seq![DiffV::ObjectKeyMissing {
                path: pfx.push(KeyV::Field(k)),
                side: Side::Rhs,
                other: aes[i].1,
            }]
        };
        here + obj_diffs_own(pfx, a, b, c, i + 1)
    }
}

#[via_fn]
proof fn obj_diffs_own_decreases(pfx: Seq<KeyV>, a: Val, b: Val, c: Config, i: int) {
    let aes = a->Obj_0;
    if a is Obj && 0 <= i < aes.len() {
        assert(decreases_to!(a => aes));
        assert(decreases_to!(aes => aes[i]));
        assert(decreases_to!(a => aes[i]));
        assert(decreases_to!(aes[i] => aes[i].1));
        assert(decreases_to!(a => aes[i].1));
    }
}

/// The missing-from-lhs records the strict object comparison emits while
/// walking the second operand's entries from index `j` on.
pub open spec fn obj_diffs_other(pfx: Seq<KeyV>, a: Val, b: Val, c: Config, j: int) -> Seq<DiffV>
    decreases b->Obj_0.len() - j,
{
    let aes = a->Obj_0;
    let bes = b->Obj_0;
    if !(b is Obj) || j < 0 || j >= bes.len() {
        Seq::empty()
    } else {
        let here = if has_key(aes, bes[j].0) {
            Seq::<DiffV>::empty()
        } else {
            seq![DiffV::ObjectKeyMissing {
                path: pfx.push(KeyV::Field(bes[j].0)),
                side: Side::Lhs,
                other: bes[j].1,
            }]
        };
        here + obj_diffs_other(pfx, a, b, c, j + 1)
    }
}

/// The differences the inclusive object comparison emits while walking the
/// expected (second) operand's entries from index `j` on: only expected keys
/// are checked; a key the actual value lacks is missing from it.
pub open spec fn obj_diffs_inc(pfx: Seq<KeyV>, a: Val, b: Val, c: Config, j: int) -> Seq<DiffV>
    decreases a, 1int, b->Obj_0.len() - j,
    via obj_diffs_inc_decreases
{
    let aes = a->Obj_0;
    let bes = b->Obj_0;
    if !(a is Obj) || !(b is Obj) || j < 0 || j >= bes.len() {
        Seq::empty()
    } else {
        let k = bes[j].0;
        let here = if has_key(aes, k) {
            spec_diff(pfx.push(KeyV::Field(k)), lookup(aes, k), bes[j].1, c)
        } else {
            seq![DiffV::ObjectKeyMissing {
                path: pfx.push(KeyV::Field(k)),
                side: Side::Lhs,
                other: bes[j].1,
            }]
        };
        here + obj_diffs_inc(pfx, a, b, c, j + 1)
    }
}

#[via_fn]
proof fn obj_diffs_inc_decreases(pfx: Seq<KeyV>, a: Val, b: Val, c: Config, j: int) {
    let aes = a->Obj_0;
    let bes = b->Obj_0;
    if a is Obj && b is Obj && 0 <= j < bes.len() && has_key(aes, bes[j].0) {
        lemma_key_idx(aes, bes[j].0);
        let idx = key_idx(aes, bes[j].0);
        assert(decreases_to!(a => aes));
        assert(decreases_to!(aes => aes[idx]));
        assert(decreases_to!(a => aes[idx]));
        assert(decreases_to!(aes[idx] => aes[idx].1));
        assert(decreases_to!(a => aes[idx].1));
    }
}

/// The missing-element records the order-insensitive containment emits for
/// expected elements from index `j` on, with the earliest equivalent unused
/// actual element consumed at each step.
pub open spec fn greedy_diffs(
    pfx: Seq<KeyV>,
    arr: Val,
    ys: Seq<Val>,
    c: Config,
    j: int,
    used: Seq<bool>,
) -> Seq<DiffV>
    decreases arr, 1int, ys.len() - j,
{
    if j < 0 || j >= ys.len() {
        Seq::empty()
    } else {
        let xs = arr->Arr_0;
        let i = find_unused(arr, used, ys[j], c, 0);
        if i < xs.len() {
            greedy_diffs(pfx, arr, ys, c, j + 1, used.update(i, true))
        } else {
            seq![DiffV::ArrayElementMissing { path: pfx.push(KeyV::Idx(j)), value: ys[j] }]
                + greedy_diffs(pfx, arr, ys, c, j + 1, used)
        }
    }
}

/// The ordered list of differences between `a` and `b` under configuration
/// `c`, with every record's path extending the prefix `pfx`.  The walk is
/// pre-order: a mismatch at a node stops the descent below it; containers of
/// the same kind recurse per entry, in input order.
pub open spec fn spec_diff(pfx: Seq<KeyV>, a: Val, b: Val, c: Config) -> Seq<DiffV>
    decreases a, 2int, 0int,
{
    match (a, b) {
        (Val::Null, Val::Null) => Seq::empty(),
        (Val::Bool(x), Val::Bool(y)) => if x == y {
            Seq::empty()
        } else {
            atom(pfx, a, b)
        },
        (Val::Num(x), Val::Num(y)) => if number_equiv(
            x,
            y,
            c.numeric_mode,
            c.float_compare_mode,
        ) {
            Seq::empty()
        } else {
            atom(pfx, a, b)
        },
        (Val::Text(x), Val::Text(y)) => if x == y {
            Seq::empty()
        } else {
            atom(pfx, a, b)
        },
        (Val::Arr(xs), Val::Arr(ys)) => {
            if c.array_sorting_mode == ArraySortingMode::Ignore {
                greedy_diffs(pfx, a, ys, c, 0, Seq::new(xs.len(), |i: int| false))
            } else {
                arr_diffs(pfx, a, b, c, 0)
            }
        },
        (Val::Obj(aes), Val::Obj(bes)) => {
            if c.compare_mode == CompareMode::Strict {
                obj_diffs_own(pfx, a, b, c, 0) + obj_diffs_other(pfx, a, b, c, 0)
            } else {
                obj_diffs_inc(pfx, a, b, c, 0)
            }
        },
        _ => atom(pfx, a, b),
    }
}

/// The index of the first entry of `entries` whose key is `k`, or the
/// length when no entry has that key.
#[verifier::loop_isolation(false)]
fn find_key(entries: &Vec<(String, Value)>, k: &str) -> (r: usize)
    ensures
        r as int == key_idx(entries_vview(entries@), k@),
{
    proof {
        lemma_entries_vview(entries@);
        lemma_key_idx(entries_vview(entries@), k@);
    }
    let ghost ev = entries_vview(entries@);
    let mut i: usize = 0;
    while i < entries.len()
        invariant
            i <= entries@.len(),
            forall|j: int| 0 <= j < i ==> (#[trigger] ev[j]).0 != k@,
        decreases entries@.len() - i,
    {
        if str_eq(entries[i].0.as_str(), k) {
            proof {
                assert(ev[i as int].0 == k@);
                if key_idx(ev, k@) < i {
                    assert(ev[key_idx(ev, k@)].0 != k@);
                }
            }
            return i;
        }
        i = i + 1;
    }
    proof {
        if key_idx(ev, k@) < ev.len() {
            assert(ev[key_idx(ev, k@)].0 != k@);
        }
    }
    entries.len()
}

/// The first actual-array index that is unused and holds an element
/// equivalent to `y`, or the array length.
#[verifier::loop_isolation(false)]
fn find_equiv(
    xs: &Vec<Value>,
    used: &Vec<bool>,
    y: &Value,
    c: &Config,
    Ghost(av): Ghost<Val>,
) -> (r: usize)
    requires
        av is Arr,
        av->Arr_0 == seq_vview(xs@),
        used@.len() == xs@.len(),
    ensures
        r as int == find_unused(av, used@, y@, *c, 0),
        r <= xs@.len(),
    decreases av, 1int, 0int,
{
    proof {
        lemma_seq_vview(xs@);
    }
    let ghost xv = av->Arr_0;
    let mut i: usize = 0;
    while i < xs.len()
        invariant
            i <= xs@.len(),
            find_unused(av, used@, y@, *c, i as int) == find_unused(av, used@, y@, *c, 0),
        decreases xs@.len() - i,
    {
        if !used[i] {
            proof {
                assert(decreases_to!(av => xv));
                assert(decreases_to!(xv => xv[i as int]));
                assert(decreases_to!(av => xv[i as int]));
            }
            let e = values_equiv(&xs[i], y, c);
            if e {
                return i;
            }
        }
        i = i + 1;
    }
    xs.len()
}

/// Decides whether two values are equivalent under a configuration, without
/// materializing the differences.
#[verifier::loop_isolation(false)]
pub fn values_equiv(a: &Value, b: &Value, c: &Config) -> (r: bool)
    ensures
        r == eq_under(a@, b@, *c),
    decreases a@, 2int, 0int,
{
    match (a, b) {
        (Value::Null, Value::Null) => true,
        (Value::Bool(x), Value::Bool(y)) => *x == *y,
        (Value::Number(x), Value::Number(y)) => number_equiv_exec(
            x,
            y,
            c.numeric_mode,
            c.float_compare_mode,
        ),
        (Value::Text(x), Value::Text(y)) => str_eq(x.as_str(), y.as_str()),
        (Value::Array(xs), Value::Array(ys)) => {
            let ghost av = a@;
            let ghost bv = b@;
            let ghost xv = av->Arr_0;
            let ghost yv = bv->Arr_0;
            proof {
                lemma_seq_vview(xs@);
                lemma_seq_vview(ys@);
            }
            if c.array_sorting_mode == ArraySortingMode::Ignore {
                let mut used: Vec<bool> = Vec::new();
                let mut i: usize = 0;
                while i < xs.len()
                    invariant
                        i <= xs@.len(),
                        used@.len() == i as int,
                        forall|k: int| 0 <= k < i ==> !used@[k],
                    decreases xs@.len() - i,
                {
                    used.push(false);
                    i = i + 1;
                }
                proof {
                    assert(used@ =~= Seq::new(xv.len(), |k: int| false));
                }
                let mut j: usize = 0;
                while j < ys.len()
                    invariant
                        j <= ys@.len(),
                        used@.len() == xs@.len(),
                        greedy_ok(av, yv, *c, 0, Seq::new(xv.len(), |k: int| false)) == greedy_ok(
                            av,
                            yv,
                            *c,
                            j as int,
                            used@,
                        ),
                    decreases ys@.len() - j,
                {
                    let i = find_equiv(xs, &used, &ys[j], c, Ghost(av));
                    if i < xs.len() {
                        used.set(i, true);
                    } else {
                        return false;
                    }
                    j = j + 1;
                }
                true
            } else {
                let ghost cfg = *c;
                let strict = c.compare_mode == CompareMode::Strict;
                let limit = if strict {
                    if xs.len() >= ys.len() {
                        xs.len()
                    } else {
                        ys.len()
                    }
                } else {
                    ys.len()
                };
                proof {
                    assert(limit as int == arr_limit(av, bv, cfg));
                }
                let mut i: usize = 0;
                while i < limit
                    invariant
                        i <= limit,
                        eq_arr(av, bv, cfg, 0) == eq_arr(av, bv, cfg, i as int),
                    decreases limit - i,
                {
                    if i < xs.len() && i < ys.len() {
                        proof {
                            assert(decreases_to!(av => xv));
                            assert(decreases_to!(xv => xv[i as int]));
                            assert(decreases_to!(av => xv[i as int]));
                        }
                        let e = values_equiv(&xs[i], &ys[i], c);
                        if !e {
                            return false;
                        }
                    } else {
                        return false;
                    }
                    i = i + 1;
                }
                true
            }
        },
        (Value::Object(aes), Value::Object(bes)) => {
            let ghost av = a@;
            let ghost bv = b@;
            let ghost aev = av->Obj_0;
            let ghost bev = bv->Obj_0;
            proof {
                lemma_entries_vview(aes@);
                lemma_entries_vview(bes@);
            }
            let ghost cfg = *c;
            if c.compare_mode == CompareMode::Strict {
                let mut i: usize = 0;
                while i < aes.len()
                    invariant
                        i <= aes@.len(),
                        eq_obj_own(av, bv, cfg, 0) == eq_obj_own(av, bv, cfg, i as int),
                    decreases aes@.len() - i,
                {
                    let idx = find_key(bes, aes[i].0.as_str());
                    proof {
                        lemma_key_idx(bev, aev[i as int].0);
                    }
                    if idx >= bes.len() {
                        return false;
                    }
                    proof {
                        assert(decreases_to!(av => aev));
                        assert(decreases_to!(aev => aev[i as int]));
                        assert(decreases_to!(av => aev[i as int]));
                        assert(decreases_to!(aev[i as int] => aev[i as int].1));
                        assert(decreases_to!(av => aev[i as int].1));
                    }
                    let e = values_equiv(&aes[i].1, &bes[idx].1, c);
                    if !e {
                        return false;
                    }
                    i = i + 1;
                }
                let mut j: usize = 0;
                while j < bes.len()
                    invariant
                        j <= bes@.len(),
                        eq_obj_own(av, bv, cfg, 0),
                        eq_obj_other(av, bv, cfg, 0) == eq_obj_other(av, bv, cfg, j as int),
                    decreases bes@.len() - j,
                {
                    let idx = find_key(aes, bes[j].0.as_str());
                    proof {
                        lemma_key_idx(aev, bev[j as int].0);
                    }
                    if idx >= aes.len() {
                        return false;
                    }
                    j = j + 1;
                }
                true
            } else {
                let mut j: usize = 0;
                while j < bes.len()
                    invariant
                        j <= bes@.len(),
                        eq_obj_inc(av, bv, cfg, 0) == eq_obj_inc(av, bv, cfg, j as int),
                    decreases bes@.len() - j,
                {
                    let idx = find_key(aes, bes[j].0.as_str());
                    proof {
                        lemma_key_idx(aev, bev[j as int].0);
                    }
                    if idx >= aes.len() {
                        return false;
                    }
                    proof {
                        assert(decreases_to!(av => aev));
                        assert(decreases_to!(aev => aev[idx as int]));
                        assert(decreases_to!(av => aev[idx as int]));
                        assert(decreases_to!(aev[idx as int] => aev[idx as int].1));
                        assert(decreases_to!(av => aev[idx as int].1));
                    }
                    let e = values_equiv(&aes[idx].1, &bes[j].1, c);
                    if !e {
                        return false;
                    }
                    j = j + 1;
                }
                true
            }
        },
        _ => false,
    }
}

/// Concatenation commutes with taking models of difference lists.
proof fn lemma_diffs_view_app(s1: Seq<Difference>, s2: Seq<Difference>)
    ensures
        diffs_view(s1 + s2) == diffs_view(s1) + diffs_view(s2),
{
    assert(diffs_view(s1 + s2) =~= diffs_view(s1) + diffs_view(s2));
}

/// Appending one record commutes with taking models.
proof fn lemma_diffs_view_push(s: Seq<Difference>, d: Difference)
    ensures
        diffs_view(s.push(d)) == diffs_view(s) + seq![d@],
{
    assert(diffs_view(s.push(d)) =~= diffs_view(s) + seq![d@]);
}

/// One atom-mismatch record for the current path.
fn atom_record(pfx: &Path, a: &Value, b: &Value) -> (d: Difference)
    ensures
        d@ == (DiffV::AtomMismatch { path: pfx@, lhs: a@, rhs: b@ }),
{
    Difference::AtomMismatch { path: pfx.duplicate(), lhs: a.duplicate(), rhs: b.duplicate() }
}

/// The recursive comparator: emits the differences between `a` and `b`
/// under `c`, every path extending `pfx`.
#[verifier::loop_isolation(false)]
fn diff_rec(pfx: &Path, a: &Value, b: &Value, c: &Config) -> (out: Vec<Difference>)
    ensures
        diffs_view(out@) == spec_diff(pfx@, a@, b@, *c),
    decreases a@, 2int, 0int,
{
    let ghost pfxv = pfx@;
    let ghost av = a@;
    let ghost bv = b@;
    let ghost cfg = *c;
    match (a, b) {
        (Value::Null, Value::Null) => {
            let out: Vec<Difference> = Vec::new();
            proof {
                assert(diffs_view(out@) =~= spec_diff(pfxv, av, bv, cfg));
            }
            out
        },
        (Value::Bool(x), Value::Bool(y)) => {
            let mut out: Vec<Difference> = Vec::new();
            if *x != *y {
                let d = atom_record(pfx, a, b);
                out.push(d);
            }
            proof {
                assert(diffs_view(out@) =~= spec_diff(pfxv, av, bv, cfg));
            }
            out
        },
        (Value::Number(x), Value::Number(y)) => {
            let mut out: Vec<Difference> = Vec::new();
            if !number_equiv_exec(x, y, c.numeric_mode, c.float_compare_mode) {
                let d = atom_record(pfx, a, b);
                out.push(d);
            }
            proof {
                assert(diffs_view(out@) =~= spec_diff(pfxv, av, bv, cfg));
            }
            out
        },
        (Value::Text(x), Value::Text(y)) => {
            let mut out: Vec<Difference> = Vec::new();
            if !str_eq(x.as_str(), y.as_str()) {
                let d = atom_record(pfx, a, b);
                out.push(d);
            }
            proof {
                assert(diffs_view(out@) =~= spec_diff(pfxv, av, bv, cfg));
            }
            out
        },
        (Value::Array(xs), Value::Array(ys)) => {
            let ghost xv = av->Arr_0;
            let ghost yv = bv->Arr_0;
            proof {
                lemma_seq_vview(xs@);
                lemma_seq_vview(ys@);
            }
            let mut out: Vec<Difference> = Vec::new();
            if c.array_sorting_mode == ArraySortingMode::Ignore {
                let mut used: Vec<bool> = Vec::new();
                let mut i: usize = 0;
                while i < xs.len()
                    invariant
                        i <= xs@.len(),
                        used@.len() == i as int,
                        forall|k: int| 0 <= k < i ==> !used@[k],
                    decreases xs@.len() - i,
                {
                    used.push(false);
                    i = i + 1;
                }
                proof {
                    assert(used@ =~= Seq::new(xv.len(), |k: int| false));
                }
                let ghost init = Seq::new(xv.len(), |k: int| false);
                let mut j: usize = 0;
                while j < ys.len()
                    invariant
                        j <= ys@.len(),
                        used@.len() == xs@.len(),
                        greedy_diffs(pfxv, av, yv, cfg, 0, init) == diffs_view(out@)
                            + greedy_diffs(pfxv, av, yv, cfg, j as int, used@),
                    decreases ys@.len() - j,
                {
                    let i = find_equiv(xs, &used, &ys[j], c, Ghost(av));
                    let ghost used0 = used@;
                    let ghost out0 = out@;
                    if i < xs.len() {
                        used.set(i, true);
                    } else {
                        let child = pfx.push(Key::Idx(j));
                        let d = Difference::ArrayElementMissing {
                            path: child,
                            value: ys[j].duplicate(),
                        };
                        out.push(d);
                        proof {
                            lemma_diffs_view_push(out0, out@[out@.len() - 1]);
                        }
                    }
                    j = j + 1;
                    proof {
                        assert(greedy_diffs(pfxv, av, yv, cfg, j - 1, used0) == (
                        if find_unused(av, used0, yv[j - 1], cfg, 0) < xv.len() {
                            greedy_diffs(
                                pfxv,
                                av,
                                yv,
                                cfg,
                                j as int,
                                used0.update(find_unused(av, used0, yv[j - 1], cfg, 0), true),
                            )
                        } else {
                            seq![
                                DiffV::ArrayElementMissing {
                                    path: pfxv.push(KeyV::Idx(j - 1)),
                                    value: yv[j - 1],
                                },
                            ] + greedy_diffs(pfxv, av, yv, cfg, j as int, used0)
                        }));
                    }
                }
                proof {
                    assert(greedy_diffs(pfxv, av, yv, cfg, j as int, used@) =~= Seq::<
                        DiffV,
                    >::empty());
                    assert(diffs_view(out@) =~= diffs_view(out@) + Seq::<DiffV>::empty());
                    assert(diffs_view(out@) == spec_diff(pfxv, av, bv, cfg));
                }
            } else {
                let strict = c.compare_mode == CompareMode::Strict;
                let limit = if strict {
                    if xs.len() >= ys.len() {
                        xs.len()
                    } else {
                        ys.len()
                    }
                } else {
                    ys.len()
                };
                proof {
                    assert(limit as int == arr_limit(av, bv, cfg));
                }
                let mut i: usize = 0;
                while i < limit
                    invariant
                        i <= limit,
                        arr_diffs(pfxv, av, bv, cfg, 0) == diffs_view(out@) + arr_diffs(
                            pfxv,
                            av,
                            bv,
                            cfg,
                            i as int,
                        ),
                    decreases limit - i,
                {
                    let ghost out0 = out@;
                    let child = pfx.push(Key::Idx(i));
                    if i < xs.len() && i < ys.len() {
                        proof {
                            assert(decreases_to!(av => xv));
                            assert(decreases_to!(xv => xv[i as int]));
                            assert(decreases_to!(av => xv[i as int]));
                        }
                        let mut sub = diff_rec(&child, &xs[i], &ys[i], c);
                        let ghost subv = sub@;
                        out.append(&mut sub);
                        proof {
                            lemma_diffs_view_app(out0, subv);
                        }
                    } else if i < xs.len() {
                        let d = Difference::ArrayIndexMissing {
                            path: child,
                            side: Side::Rhs,
                            other: xs[i].duplicate(),
                        };
                        out.push(d);
                        proof {
                            lemma_diffs_view_push(out0, out@[out@.len() - 1]);
                        }
                    } else {
                        let d = Difference::ArrayIndexMissing {
                            path: child,
                            side: Side::Lhs,
                            other: ys[i].duplicate(),
                        };
                        out.push(d);
                        proof {
                            lemma_diffs_view_push(out0, out@[out@.len() - 1]);
                        }
                    }
                    i = i + 1;
                    proof {
                        assert(diffs_view(out0) + arr_diffs(pfxv, av, bv, cfg, i - 1) =~= diffs_view(
                            out@,
                        ) + arr_diffs(pfxv, av, bv, cfg, i as int));
                    }
                }
                proof {
                    assert(arr_diffs(pfxv, av, bv, cfg, limit as int) =~= Seq::<DiffV>::empty());
                    assert(diffs_view(out@) =~= diffs_view(out@) + Seq::<DiffV>::empty());
                    assert(diffs_view(out@) == spec_diff(pfxv, av, bv, cfg));
                }
            }
            out
        },
        (Value::Object(aes), Value::Object(bes)) => {
            let ghost aev = av->Obj_0;
            let ghost bev = bv->Obj_0;
            proof {
                lemma_entries_vview(aes@);
                lemma_entries_vview(bes@);
            }
            let mut out: Vec<Difference> = Vec::new();
            if c.compare_mode == CompareMode::Strict {
                let mut i: usize = 0;
                while i < aes.len()
                    invariant
                        i <= aes@.len(),
                        obj_diffs_own(pfxv, av, bv, cfg, 0) == diffs_view(out@) + obj_diffs_own(
                            pfxv,
                            av,
                            bv,
                            cfg,
                            i as int,
                        ),
                    decreases aes@.len() - i,
                {
                    let ghost out0 = out@;
                    let idx = find_key(bes, aes[i].0.as_str());
                    proof {
                        lemma_key_idx(bev, aev[i as int].0);
                    }
                    let child = pfx.push(Key::Field(String::from_str(aes[i].0.as_str())));
                    if idx < bes.len() {
                        proof {
                            assert(decreases_to!(av => aev));
                            assert(decreases_to!(aev => aev[i as int]));
                            assert(decreases_to!(av => aev[i as int]));
                            assert(decreases_to!(aev[i as int] => aev[i as int].1));
                            assert(decreases_to!(av => aev[i as int].1));
                        }
                        let mut sub = diff_rec(&child, &aes[i].1, &bes[idx].1, c);
                        let ghost subv = sub@;
                        out.append(&mut sub);
                        proof {
                            lemma_diffs_view_app(out0, subv);
                        }
                    } else {
                        let d = Difference::ObjectKeyMissing {
                            path: child,
                            side: Side::Rhs,
                            other: aes[i].1.duplicate(),
                        };
                        out.push(d);
                        proof {
                            lemma_diffs_view_push(out0, out@[out@.len() - 1]);
                        }
                    }
                    i = i + 1;
                    proof {
                        assert(diffs_view(out0) + obj_diffs_own(pfxv, av, bv, cfg, i - 1)
                            =~= diffs_view(out@) + obj_diffs_own(pfxv, av, bv, cfg, i as int));
                    }
                }
                let ghost own_all = diffs_view(out@);
                let mut j: usize = 0;
                while j < bes.len()
                    invariant
                        j <= bes@.len(),
                        own_all == obj_diffs_own(pfxv, av, bv, cfg, 0),
                        own_all + obj_diffs_other(pfxv, av, bv, cfg, 0) == diffs_view(out@)
                            + obj_diffs_other(pfxv, av, bv, cfg, j as int),
                    decreases bes@.len() - j,
                {
                    let ghost out0 = out@;
                    let idx = find_key(aes, bes[j].0.as_str());
                    proof {
                        lemma_key_idx(aev, bev[j as int].0);
                    }
                    if idx >= aes.len() {
                        let child = pfx.push(Key::Field(String::from_str(bes[j].0.as_str())));
                        let d = Difference::ObjectKeyMissing {
                            path: child,
                            side: Side::Lhs,
                            other: bes[j].1.duplicate(),
                        };
                        out.push(d);
                        proof {
                            lemma_diffs_view_push(out0, out@[out@.len() - 1]);
                        }
                    }
                    j = j + 1;
                    proof {
                        assert(diffs_view(out0) + obj_diffs_other(pfxv, av, bv, cfg, j - 1)
                            =~= diffs_view(out@) + obj_diffs_other(pfxv, av, bv, cfg, j as int));
                    }
                }
                proof {
                    assert(obj_diffs_other(pfxv, av, bv, cfg, j as int) =~= Seq::<DiffV>::empty());
                    assert(own_all + obj_diffs_other(pfxv, av, bv, cfg, 0) =~= diffs_view(out@));
                    assert(diffs_view(out@) == spec_diff(pfxv, av, bv, cfg));
                }
            } else {
                let mut j: usize = 0;
                while j < bes.len()
                    invariant
                        j <= bes@.len(),
                        obj_diffs_inc(pfxv, av, bv, cfg, 0) == diffs_view(out@) + obj_diffs_inc(
                            pfxv,
                            av,
                            bv,
                            cfg,
                            j as int,
                        ),
                    decreases bes@.len() - j,
                {
                    let ghost out0 = out@;
                    let idx = find_key(aes, bes[j].0.as_str());
                    proof {
                        lemma_key_idx(aev, bev[j as int].0);
                    }
                    let child = pfx.push(Key::Field(String::from_str(bes[j].0.as_str())));
                    if idx < aes.len() {
                        proof {
                            assert(decreases_to!(av => aev));
                            assert(decreases_to!(aev => aev[idx as int]));
                            assert(decreases_to!(av => aev[idx as int]));
                            assert(decreases_to!(aev[idx as int] => aev[idx as int].1));
                            assert(decreases_to!(av => aev[idx as int].1));
                        }
                        let mut sub = diff_rec(&child, &aes[idx].1, &bes[j].1, c);
                        let ghost subv = sub@;
                        out.append(&mut sub);
                        proof {
                            lemma_diffs_view_app(out0, subv);
                        }
                    } else {
                        let d = Difference::ObjectKeyMissing {
                            path: child,
                            side: Side::Lhs,
                            other: bes[j].1.duplicate(),
                        };
                        out.push(d);
                        proof {
                            lemma_diffs_view_push(out0, out@[out@.len() - 1]);
                        }
                    }
                    j = j + 1;
                    proof {
                        assert(diffs_view(out0) + obj_diffs_inc(pfxv, av, bv, cfg, j - 1)
                            =~= diffs_view(out@) + obj_diffs_inc(pfxv, av, bv, cfg, j as int));
                    }
                }
                proof {
                    assert(obj_diffs_inc(pfxv, av, bv, cfg, j as int) =~= Seq::<DiffV>::empty());
                    assert(diffs_view(out@) =~= diffs_view(out@) + Seq::<DiffV>::empty());
                    assert(diffs_view(out@) == spec_diff(pfxv, av, bv, cfg));
                }
            }
            out
        },
        _ => {
            let mut out: Vec<Difference> = Vec::new();
            let d = atom_record(pfx, a, b);
            out.push(d);
            proof {
                assert(diffs_view(out@) =~= spec_diff(pfxv, av, bv, cfg));
            }
            out
        },
    }
}

/// Compare two values under a configuration and return the ordered list of
/// differences; an empty list means the values are equivalent under the
/// configuration.  Under inclusive comparison `lhs` is the actual value and
/// `rhs` the expected pattern.
pub fn diff(lhs: &Value, rhs: &Value, config: &Config) -> (out: Vec<Difference>)
    requires
        config.wf(),
    ensures
        diffs_view(out@) == spec_diff(Seq::<KeyV>::empty(), lhs@, rhs@, *config),
        out@.len() == 0 <==> eq_under(lhs@, rhs@, *config),
{
    let root = Path::root();
    let out = diff_rec(&root, lhs, rhs, config);
    proof {
        crate::laws::lemma_diff_empty(Seq::<KeyV>::empty(), lhs@, rhs@, *config);
    }
    out
}

/// Compare two values and return `Ok(())` when they are equivalent under
/// the configuration, or the list of differences otherwise.
pub fn try_matches(lhs: &Value, rhs: &Value, config: &Config) -> (r: Result<
    (),
    Vec<Difference>,
>)
    requires
        config.wf(),
    ensures
        r is Ok <==> eq_under(lhs@, rhs@, *config),
        r is Err ==> diffs_view(r->Err_0@) == spec_diff(Seq::<KeyV>::empty(), lhs@, rhs@, *config),
{
    let d = diff(lhs, rhs, config);
    if d.len() == 0 {
        Ok(())
    } else {
        Err(d)
    }
}

/// The character for one decimal digit.
pub open spec fn digit_char(d: int) -> char {
    if d == 0 {
        '0'
    } else if d == 1 {
        '1'
    } else if d == 2 {
        '2'
    } else if d == 3 {
        '3'
    } else if d == 4 {
        '4'
    } else if d == 5 {
        '5'
    } else if d == 6 {
        '6'
    } else if d == 7 {
        '7'
    } else if d == 8 {
        '8'
    } else {
        '9'
    }
}

/// The decimal digits of a non-negative integer, most significant first.
pub open spec fn dec_digits(n: int) -> Seq<char>
    decreases n,
{
    if n < 10 {
        seq![digit_char(n)]
    } else {
        dec_digits(n / 10) + seq![digit_char(n % 10)]
    }
}

/// How one path segment renders: an object key as `.name`, an array index
/// as `[n]`.
pub open spec fn key_render(k: KeyV) -> Seq<char> {
    match k {
        KeyV::Field(s) => seq!['.'] + s,
        KeyV::Idx(i) => seq!['['] + dec_digits(i) + seq![']'],
    }
}

/// How a sequence of segments renders: the segments concatenated in order.
pub open spec fn segs_render(p: Seq<KeyV>) -> Seq<char>
    decreases p.len(),
{
    if p.len() == 0 {
        Seq::empty()
    } else {
        segs_render(p.drop_last()) + key_render(p.last())
    }
}

/// How a whole path renders: the empty path is the root marker `(root)`,
/// any other path is its segments concatenated.
pub open spec fn path_render(p: Seq<KeyV>) -> Seq<char> {
    if p.len() == 0 {
        "(root)"@
    } else {
        segs_render(p)
    }
}

/// One decimal digit as text.
fn digit_str(d: u64) -> (r: &'static str)
    requires
        d < 10,
    ensures
        r@ == seq![digit_char(d as int)],
{
    proof {
        reveal_strlit("0");
        reveal_strlit("1");
        reveal_strlit("2");
        reveal_strlit("3");
        reveal_strlit("4");
        reveal_strlit("5");
        reveal_strlit("6");
        reveal_strlit("7");
        reveal_strlit("8");
        reveal_strlit("9");
    }
    let r = match d {
        0 => "0",
        1 => "1",
        2 => "2",
        3 => "3",
        4 => "4",
        5 => "5",
        6 => "6",
        7 => "7",
        8 => "8",
        _ => "9",
    };
    proof {
        assert(r@ =~= seq![digit_char(d as int)]);
    }
    r
}

/// A non-negative integer in decimal.
fn render_u64(n: u64) -> (r: String)
    ensures
        r@ == dec_digits(n as int),
    decreases n,
{
    if n < 10 {
        String::from_str(digit_str(n))
    } else {
        let mut r = render_u64(n / 10);
        r.append(digit_str(n % 10));
        r
    }
}

impl Key {
    /// This segment as text: `.name` for an object key, `[n]` for an array
    /// index.
    pub fn render(&self) -> (r: String)
        ensures
            r@ == key_render(self@),
    {
        match self {
            Key::Field(f) => {
                proof {
                    reveal_strlit(".");
                }
                let mut r = String::from_str(".");
                r.append(f.as_str());
                proof {
                    assert(r@ =~= key_render(self@));
                }
                r
            },
            Key::Idx(i) => {
                proof {
                    reveal_strlit("[");
                    reveal_strlit("]");
                }
                let mut r = String::from_str("[");
                let digits = render_u64(*i as u64);
                r.append(digits.as_str());
                r.append("]");
                proof {
                    assert(r@ =~= key_render(self@));
                }
                r
            },
        }
    }
}

impl Path {
    /// This path as text: segments concatenated in order, the empty path as
    /// the root marker.
    #[verifier::loop_isolation(false)]
    pub fn render(&self) -> (r: String)
        ensures
            r@ == path_render(self@),
    {
        if self.segments.len() == 0 {
            proof {
                reveal_strlit("(root)");
            }
            String::from_str("(root)")
        } else {
            proof {
                reveal_strlit("");
            }
            let mut r = String::from_str("");
            let mut i: usize = 0;
            while i < self.segments.len()
                invariant
                    i <= self.segments@.len(),
                    r@ == segs_render(self@.take(i as int)),
                decreases self.segments@.len() - i,
            {
                let seg = self.segments[i].render();
                r.append(seg.as_str());
                i = i + 1;
                proof {
                    assert(self@.take(i as int).drop_last() =~= self@.take(i - 1));
                    assert(self@.take(i as int).last() == self@[i - 1]);
                }
            }
            proof {
                assert(self@.take(self.segments@.len() as int) =~= self@);
            }
            r
        }
    }
}

} // verus!
