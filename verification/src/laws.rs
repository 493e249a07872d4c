//! The engine's governing laws, proved once and for all: an empty diff list
//! means exactly equivalence under the configuration, comparison is
//! reflexive, strict comparison is symmetric, and inclusive containment is
//! preserved by adding extra data to the actual value.

use vstd::prelude::*;
use vstd::multiset::Multiset;
use crate::config::ArraySortingMode;
use crate::config::CompareMode;
use crate::config::Config;
use crate::diff::arr_diffs;
use crate::diff::arr_limit;
use crate::diff::eq_arr;
use crate::diff::eq_obj_inc;
use crate::diff::eq_obj_other;
use crate::diff::eq_obj_own;
use crate::diff::eq_under;
use crate::diff::find_unused;
use crate::diff::greedy_diffs;
use crate::diff::greedy_ok;
use crate::diff::obj_diffs_inc;
use crate::diff::obj_diffs_other;
use crate::diff::obj_diffs_own;
use crate::diff::spec_diff;
use crate::diff::DiffV;
use crate::diff::KeyV;
use crate::diff::Side;
use crate::value::has_key;
use crate::value::key_idx;
use crate::value::lemma_key_idx;
use crate::value::lookup;
use crate::value::Val;

verus! {

/// Order-insensitive containment emits no record from step `j` on exactly
/// when the greedy matching succeeds from there.
proof fn lemma_greedy_empty(
    pfx: Seq<KeyV>,
    arr: Val,
    ys: Seq<Val>,
    c: Config,
    j: int,
    used: Seq<bool>,
)
    ensures
        (greedy_diffs(pfx, arr, ys, c, j, used).len() == 0) == greedy_ok(arr, ys, c, j, used),
    decreases ys.len() - j,
{
    if 0 <= j < ys.len() {
        let xs = arr->Arr_0;
        let i = find_unused(arr, used, ys[j], c, 0);
        if i < xs.len() {
            lemma_greedy_empty(pfx, arr, ys, c, j + 1, used.update(i, true));
        } else {
            lemma_greedy_empty(pfx, arr, ys, c, j + 1, used);
        }
    }
}

/// The order-sensitive array walk from index `i` on emits no record exactly
/// when the arrays agree from there.
proof fn lemma_arr_diffs_empty(pfx: Seq<KeyV>, a: Val, b: Val, c: Config, i: int)
    requires
        a is Arr,
        b is Arr,
        0 <= i,
    ensures
        (arr_diffs(pfx, a, b, c, i).len() == 0) == eq_arr(a, b, c, i),
    decreases a, 1int, arr_limit(a, b, c) - i,
{
    let xs = a->Arr_0;
    let ys = b->Arr_0;
    if i < arr_limit(a, b, c) {
        if i < xs.len() && i < ys.len() {
            assert(decreases_to!(a => xs));
            assert(decreases_to!(xs => xs[i]));
            assert(decreases_to!(a => xs[i]));
            lemma_diff_empty(pfx.push(KeyV::Idx(i)), xs[i], ys[i], c);
        }
        lemma_arr_diffs_empty(pfx, a, b, c, i + 1);
    }
}

/// The strict walk over the first operand's entries from `i` on emits no
/// record exactly when each remaining key matches.
proof fn lemma_obj_own_empty(pfx: Seq<KeyV>, a: Val, b: Val, c: Config, i: int)
    requires
        a is Obj,
        0 <= i,
    ensures
        (obj_diffs_own(pfx, a, b, c, i).len() == 0) == eq_obj_own(a, b, c, i),
    decreases a, 1int, a->Obj_0.len() - i,
{
    let aes = a->Obj_0;
    let bes = b->Obj_0;
    if i < aes.len() {
        if has_key(bes, aes[i].0) {
            assert(decreases_to!(a => aes));
            assert(decreases_to!(aes => aes[i]));
            assert(decreases_to!(a => aes[i]));
            assert(decreases_to!(aes[i] => aes[i].1));
            assert(decreases_to!(a => aes[i].1));
            lemma_diff_empty(pfx.push(KeyV::Field(aes[i].0)), aes[i].1, lookup(bes, aes[i].0), c);
        }
        lemma_obj_own_empty(pfx, a, b, c, i + 1);
    }
}

/// The strict walk over the second operand's entries from `j` on emits no
/// record exactly when each remaining key also exists on the first side.
proof fn lemma_obj_other_empty(pfx: Seq<KeyV>, a: Val, b: Val, c: Config, j: int)
    requires
        b is Obj,
        0 <= j,
    ensures
        (obj_diffs_other(pfx, a, b, c, j).len() == 0) == eq_obj_other(a, b, c, j),
    decreases b->Obj_0.len() - j,
{
    let bes = b->Obj_0;
    if j < bes.len() {
        lemma_obj_other_empty(pfx, a, b, c, j + 1);
    }
}

/// The inclusive walk over the expected entries from `j` on emits no record
/// exactly when each remaining expected key is contained.
proof fn lemma_obj_inc_empty(pfx: Seq<KeyV>, a: Val, b: Val, c: Config, j: int)
    requires
        a is Obj,
        b is Obj,
        0 <= j,
    ensures
        (obj_diffs_inc(pfx, a, b, c, j).len() == 0) == eq_obj_inc(a, b, c, j),
    decreases a, 1int, b->Obj_0.len() - j,
{
    let aes = a->Obj_0;
    let bes = b->Obj_0;
    if j < bes.len() {
        if has_key(aes, bes[j].0) {
            lemma_key_idx(aes, bes[j].0);
            let idx = key_idx(aes, bes[j].0);
            assert(decreases_to!(a => aes));
            assert(decreases_to!(aes => aes[idx]));
            assert(decreases_to!(a => aes[idx]));
            assert(decreases_to!(aes[idx] => aes[idx].1));
            assert(decreases_to!(a => aes[idx].1));
            lemma_diff_empty(pfx.push(KeyV::Field(bes[j].0)), lookup(aes, bes[j].0), bes[j].1, c);
        }
        lemma_obj_inc_empty(pfx, a, b, c, j + 1);
    }
}

/// The engine's central law: the comparison emits no difference exactly when
/// the two values are equivalent under the configuration.
pub proof fn lemma_diff_empty(pfx: Seq<KeyV>, a: Val, b: Val, c: Config)
    ensures
        (spec_diff(pfx, a, b, c).len() == 0) == eq_under(a, b, c),
    decreases a, 2int, 0int,
{
    match (a, b) {
        (Val::Arr(xs), Val::Arr(ys)) => {
            if c.array_sorting_mode == ArraySortingMode::Ignore {
                lemma_greedy_empty(pfx, a, ys, c, 0, Seq::new(xs.len(), |i: int| false));
            } else {
                lemma_arr_diffs_empty(pfx, a, b, c, 0);
            }
        },
        (Val::Obj(aes), Val::Obj(bes)) => {
            if c.compare_mode == CompareMode::Strict {
                lemma_obj_own_empty(pfx, a, b, c, 0);
                lemma_obj_other_empty(pfx, a, b, c, 0);
            } else {
                lemma_obj_inc_empty(pfx, a, b, c, 0);
            }
        },
        _ => {},
    }
}

/// Numbers are equivalent to themselves under every numeric mode and every
/// well-formed float comparison mode.
proof fn lemma_num_refl(n: crate::value::Number, nm: crate::config::NumericMode, fm: crate::config::FloatCompareMode)
    requires
        fm.wf(),
    ensures
        crate::num::number_equiv(n, n, nm, fm),
{
    match fm {
        crate::config::FloatCompareMode::Exact => {},
        crate::config::FloatCompareMode::Epsilon(bits) => {
            assert(crate::num::abs_int(0) == 0);
            if crate::num::f64_is_finite(bits) {
                assert(!crate::num::f64_sign(bits));
                assert(crate::num::f64_val(bits) >= 0);
            }
        },
    }
}

/// The greedy matching of a well-formed array against itself succeeds: at
/// step `j` every earlier element is consumed and element `j` matches
/// itself.
proof fn lemma_greedy_refl(a: Val, c: Config, j: int)
    requires
        a is Arr,
        a.wf(),
        c.wf(),
        0 <= j <= a->Arr_0.len(),
    ensures
        greedy_ok(a, a->Arr_0, c, j, Seq::new(a->Arr_0.len(), |k: int| k < j)),
    decreases a, 1int, a->Arr_0.len() - j,
{
    let xs = a->Arr_0;
    let used = Seq::new(xs.len(), |k: int| k < j);
    if j < xs.len() {
        assert(decreases_to!(a => xs));
        assert(decreases_to!(xs => xs[j]));
        assert(decreases_to!(a => xs[j]));
        lemma_eq_under_refl(xs[j], c);
        lemma_find_skip(a, c, j, 0);
        assert(used.update(j, true) =~= Seq::new(xs.len(), |k: int| k < j + 1));
        lemma_greedy_refl(a, c, j + 1);
    }
}

/// Scanning for an unused element equivalent to element `j`, when exactly
/// the elements before `j` are used, stops at `j` itself.
proof fn lemma_find_skip(a: Val, c: Config, j: int, i: int)
    requires
        a is Arr,
        0 <= i <= j < a->Arr_0.len(),
        eq_under(a->Arr_0[j], a->Arr_0[j], c),
    ensures
        find_unused(a, Seq::new(a->Arr_0.len(), |k: int| k < j), a->Arr_0[j], c, i) == j,
    decreases j - i,
{
    if i < j {
        lemma_find_skip(a, c, j, i + 1);
    }
}

/// Order-sensitive array self-comparison agrees from any index on.
proof fn lemma_eq_arr_refl(a: Val, c: Config, i: int)
    requires
        a is Arr,
        a.wf(),
        c.wf(),
        0 <= i,
    ensures
        eq_arr(a, a, c, i),
    decreases a, 1int, arr_limit(a, a, c) - i,
{
    let xs = a->Arr_0;
    if i < arr_limit(a, a, c) {
        assert(decreases_to!(a => xs));
        assert(decreases_to!(xs => xs[i]));
        assert(decreases_to!(a => xs[i]));
        lemma_eq_under_refl(xs[i], c);
        lemma_eq_arr_refl(a, c, i + 1);
    }
}

/// In a well-formed object the first entry with the key of entry `i` is
/// entry `i` itself.
proof fn lemma_wf_key_idx(a: Val, i: int)
    requires
        a is Obj,
        a.wf(),
        0 <= i < a->Obj_0.len(),
    ensures
        key_idx(a->Obj_0, a->Obj_0[i].0) == i,
        has_key(a->Obj_0, a->Obj_0[i].0),
        lookup(a->Obj_0, a->Obj_0[i].0) == a->Obj_0[i].1,
{
    let aes = a->Obj_0;
    lemma_key_idx(aes, aes[i].0);
    let idx = key_idx(aes, aes[i].0);
    if idx == aes.len() {
        assert(aes[i].0 != aes[i].0);
    }
    if idx < i {
        assert(aes[idx].0 == aes[i].0);
    }
}

/// Strict object self-comparison: every key of a well-formed object is
/// found in the object itself, with an equivalent value.
proof fn lemma_eq_obj_own_refl(a: Val, c: Config, i: int)
    requires
        a is Obj,
        a.wf(),
        c.wf(),
        0 <= i,
    ensures
        eq_obj_own(a, a, c, i),
        eq_obj_other(a, a, c, i),
        eq_obj_inc(a, a, c, i),
    decreases a, 1int, a->Obj_0.len() - i,
{
    let aes = a->Obj_0;
    if i < aes.len() {
        lemma_wf_key_idx(a, i);
        assert(decreases_to!(a => aes));
        assert(decreases_to!(aes => aes[i]));
        assert(decreases_to!(a => aes[i]));
        assert(decreases_to!(aes[i] => aes[i].1));
        assert(decreases_to!(a => aes[i].1));
        lemma_eq_under_refl(aes[i].1, c);
        lemma_eq_obj_own_refl(a, c, i + 1);
    }
}

/// Reflexivity: every well-formed value is equivalent to itself under every
/// well-formed configuration, whatever the comparison, array-order, numeric
/// and float modes are.
pub proof fn lemma_eq_under_refl(v: Val, c: Config)
    requires
        v.wf(),
        c.wf(),
    ensures
        eq_under(v, v, c),
    decreases v, 2int, 0int,
{
    match v {
        Val::Num(n) => {
            lemma_num_refl(n, c.numeric_mode, c.float_compare_mode);
        },
        Val::Arr(xs) => {
            if c.array_sorting_mode == ArraySortingMode::Ignore {
                lemma_greedy_refl(v, c, 0);
                assert(Seq::new(xs.len(), |k: int| k < 0) =~= Seq::new(xs.len(), |k: int| false));
            } else {
                lemma_eq_arr_refl(v, c, 0);
            }
        },
        Val::Obj(aes) => {
            lemma_eq_obj_own_refl(v, c, 0);
        },
        _ => {},
    }
}

/// Reflexivity at the diff level: comparing a well-formed value with itself
/// emits no difference, under every well-formed configuration.
pub proof fn lemma_diff_reflexive(pfx: Seq<KeyV>, v: Val, c: Config)
    requires
        v.wf(),
        c.wf(),
    ensures
        spec_diff(pfx, v, v, c) == Seq::<crate::diff::DiffV>::empty(),
{
    lemma_eq_under_refl(v, c);
    lemma_diff_empty(pfx, v, v, c);
    assert(spec_diff(pfx, v, v, c) =~= Seq::<crate::diff::DiffV>::empty());
}

/// Two numbers are equivalent in either order.
proof fn lemma_num_sym(
    x: crate::value::Number,
    y: crate::value::Number,
    nm: crate::config::NumericMode,
    fm: crate::config::FloatCompareMode,
)
    ensures
        crate::num::number_equiv(x, y, nm, fm) == crate::num::number_equiv(y, x, nm, fm),
{
}

/// Every entry from `m` on that `eq_obj_own` covers matches: extraction of
/// the per-entry fact.
proof fn lemma_eq_obj_own_at(a: Val, b: Val, c: Config, i: int, m: int)
    requires
        a is Obj,
        eq_obj_own(a, b, c, i),
        0 <= i <= m < a->Obj_0.len(),
    ensures
        has_key(b->Obj_0, a->Obj_0[m].0),
        eq_under(a->Obj_0[m].1, lookup(b->Obj_0, a->Obj_0[m].0), c),
    decreases m - i,
{
    if i < m {
        lemma_eq_obj_own_at(a, b, c, i + 1, m);
    }
}

/// Extraction of the per-entry fact of `eq_obj_other`.
proof fn lemma_eq_obj_other_at(a: Val, b: Val, c: Config, j: int, m: int)
    requires
        b is Obj,
        eq_obj_other(a, b, c, j),
        0 <= j <= m < b->Obj_0.len(),
    ensures
        has_key(a->Obj_0, b->Obj_0[m].0),
    decreases m - j,
{
    if j < m {
        lemma_eq_obj_other_at(a, b, c, j + 1, m);
    }
}

/// Extraction of the per-entry fact of `eq_obj_inc`.
proof fn lemma_eq_obj_inc_at(a: Val, b: Val, c: Config, j: int, m: int)
    requires
        a is Obj,
        b is Obj,
        eq_obj_inc(a, b, c, j),
        0 <= j <= m < b->Obj_0.len(),
    ensures
        has_key(a->Obj_0, b->Obj_0[m].0),
        eq_under(lookup(a->Obj_0, b->Obj_0[m].0), b->Obj_0[m].1, c),
    decreases m - j,
{
    if j < m {
        lemma_eq_obj_inc_at(a, b, c, j + 1, m);
    }
}

/// Extraction of the per-index fact of `eq_arr`.
proof fn lemma_eq_arr_at(a: Val, b: Val, c: Config, i: int, m: int)
    requires
        a is Arr,
        b is Arr,
        eq_arr(a, b, c, i),
        0 <= i <= m < arr_limit(a, b, c),
    ensures
        m < a->Arr_0.len(),
        m < b->Arr_0.len(),
        eq_under(a->Arr_0[m], b->Arr_0[m], c),
    decreases m - i,
{
    if i < m {
        lemma_eq_arr_at(a, b, c, i + 1, m);
    }
}

/// One direction of strict symmetry, by structural induction.
proof fn lemma_sym_fwd(a: Val, b: Val, c: Config)
    requires
        a.wf(),
        b.wf(),
        c.compare_mode == CompareMode::Strict,
        c.array_sorting_mode == ArraySortingMode::Consider,
        eq_under(a, b, c),
    ensures
        eq_under(b, a, c),
    decreases a, 2int, 0int,
{
    match (a, b) {
        (Val::Num(x), Val::Num(y)) => {
            lemma_num_sym(x, y, c.numeric_mode, c.float_compare_mode);
        },
        (Val::Arr(xs), Val::Arr(ys)) => {
            lemma_arr_sym_fwd(a, b, c, 0);
        },
        (Val::Obj(aes), Val::Obj(bes)) => {
            lemma_obj_sym_own(a, b, c, 0);
            lemma_obj_sym_other(a, b, c, 0);
        },
        _ => {},
    }
}

/// One direction of array symmetry, index by index.
proof fn lemma_arr_sym_fwd(a: Val, b: Val, c: Config, i: int)
    requires
        a.wf(),
        b.wf(),
        a is Arr,
        b is Arr,
        c.compare_mode == CompareMode::Strict,
        c.array_sorting_mode == ArraySortingMode::Consider,
        eq_arr(a, b, c, i),
        0 <= i,
    ensures
        eq_arr(b, a, c, i),
    decreases a, 1int, arr_limit(a, b, c) - i,
{
    let xs = a->Arr_0;
    let ys = b->Arr_0;
    if i < arr_limit(b, a, c) {
        assert(decreases_to!(a => xs));
        assert(decreases_to!(xs => xs[i]));
        assert(decreases_to!(a => xs[i]));
        lemma_sym_fwd(xs[i], ys[i], c);
        lemma_arr_sym_fwd(a, b, c, i + 1);
    }
}

/// Building the own-side of the swapped strict object comparison: every key
/// of `b` exists in `a` with an equivalent value.
proof fn lemma_obj_sym_own(a: Val, b: Val, c: Config, j: int)
    requires
        a.wf(),
        b.wf(),
        a is Obj,
        b is Obj,
        c.compare_mode == CompareMode::Strict,
        c.array_sorting_mode == ArraySortingMode::Consider,
        eq_obj_own(a, b, c, 0),
        eq_obj_other(a, b, c, 0),
        0 <= j,
    ensures
        eq_obj_own(b, a, c, j),
    decreases a, 1int, b->Obj_0.len() - j,
{
    let aes = a->Obj_0;
    let bes = b->Obj_0;
    if j < bes.len() {
        lemma_eq_obj_other_at(a, b, c, 0, j);
        lemma_key_idx(aes, bes[j].0);
        let m = key_idx(aes, bes[j].0);
        lemma_eq_obj_own_at(a, b, c, 0, m);
        lemma_wf_key_idx(b, j);
        assert(lookup(bes, aes[m].0) == bes[j].1);
        assert(decreases_to!(a => aes));
        assert(decreases_to!(aes => aes[m]));
        assert(decreases_to!(a => aes[m]));
        assert(decreases_to!(aes[m] => aes[m].1));
        assert(decreases_to!(a => aes[m].1));
        lemma_sym_fwd(aes[m].1, bes[j].1, c);
        assert(eq_under(bes[j].1, lookup(aes, bes[j].0), c));
        lemma_obj_sym_own(a, b, c, j + 1);
    }
}

/// Building the other-side of the swapped strict object comparison: every
/// key of `a` exists in `b`.
proof fn lemma_obj_sym_other(a: Val, b: Val, c: Config, i: int)
    requires
        a is Obj,
        b is Obj,
        eq_obj_own(a, b, c, 0),
        0 <= i,
    ensures
        eq_obj_other(b, a, c, i),
    decreases a->Obj_0.len() - i,
{
    let aes = a->Obj_0;
    if i < aes.len() {
        lemma_eq_obj_own_at(a, b, c, 0, i);
        lemma_obj_sym_other(a, b, c, i + 1);
    }
}

/// Strict symmetry: under strict comparison the operands are symmetric
/// peers — swapping them cannot change whether they are equivalent, so the
/// diff of well-formed values is empty in one order exactly when it is empty
/// in the other.
pub proof fn lemma_strict_symmetric(a: Val, b: Val, c: Config)
    requires
        a.wf(),
        b.wf(),
        c.compare_mode == CompareMode::Strict,
        c.array_sorting_mode == ArraySortingMode::Consider,
    ensures
        eq_under(a, b, c) == eq_under(b, a, c),
{
    if eq_under(a, b, c) {
        lemma_sym_fwd(a, b, c);
    }
    if eq_under(b, a, c) {
        lemma_sym_fwd(b, a, c);
    }
}

/// Strict symmetry at the diff level: the comparison of well-formed values
/// emits no record in one order exactly when it emits none in the other.
pub proof fn lemma_strict_diff_symmetric(pfx: Seq<KeyV>, a: Val, b: Val, c: Config)
    requires
        a.wf(),
        b.wf(),
        c.compare_mode == CompareMode::Strict,
        c.array_sorting_mode == ArraySortingMode::Consider,
    ensures
        (spec_diff(pfx, a, b, c).len() == 0) == (spec_diff(pfx, b, a, c).len() == 0),
{
    lemma_strict_symmetric(a, b, c);
    lemma_diff_empty(pfx, a, b, c);
    lemma_diff_empty(pfx, b, a, c);
}

/// Entrywise object extension from entry `i` on: every remaining entry of
/// the smaller object is found in the larger one, with the same value.
pub open spec fn ext_obj(a2: Val, a1: Val, i: int) -> bool
    decreases a1->Obj_0.len() - i,
{
    let a1es = a1->Obj_0;
    if !(a1 is Obj) || i < 0 || i >= a1es.len() {
        true
    } else {
        has_key(a2->Obj_0, a1es[i].0) && lookup(a2->Obj_0, a1es[i].0) == a1es[i].1 && ext_obj(
            a2,
            a1,
            i + 1,
        )
    }
}

/// `a2` extends `a1`: it is the same value, or an object that keeps every
/// entry of `a1` (under lookup) and may add keys, or an array with `a1` as a
/// prefix and extra trailing elements.
pub open spec fn extends(a2: Val, a1: Val) -> bool {
    ||| a2 == a1
    ||| (a1 is Obj && a2 is Obj && ext_obj(a2, a1, 0))
    ||| (a1 is Arr && a2 is Arr && a1->Arr_0.len() <= a2->Arr_0.len() && a2->Arr_0.subrange(
        0,
        a1->Arr_0.len() as int,
    ) == a1->Arr_0)
}

/// Extraction of the per-entry fact of `ext_obj`.
proof fn lemma_ext_obj_at(a2: Val, a1: Val, i: int, m: int)
    requires
        a1 is Obj,
        ext_obj(a2, a1, i),
        0 <= i <= m < a1->Obj_0.len(),
    ensures
        has_key(a2->Obj_0, a1->Obj_0[m].0),
        lookup(a2->Obj_0, a1->Obj_0[m].0) == a1->Obj_0[m].1,
    decreases m - i,
{
    if i < m {
        lemma_ext_obj_at(a2, a1, i + 1, m);
    }
}

/// Inclusive object monotonicity, entry by entry.
proof fn lemma_obj_inc_mono(a1: Val, a2: Val, e: Val, c: Config, j: int)
    requires
        a1 is Obj,
        a2 is Obj,
        e is Obj,
        ext_obj(a2, a1, 0),
        eq_obj_inc(a1, e, c, j),
        c.compare_mode == CompareMode::Inclusive,
        0 <= j,
    ensures
        eq_obj_inc(a2, e, c, j),
    decreases e->Obj_0.len() - j,
{
    let ees = e->Obj_0;
    if j < ees.len() {
        let k = ees[j].0;
        lemma_key_idx(a1->Obj_0, k);
        let m = key_idx(a1->Obj_0, k);
        lemma_ext_obj_at(a2, a1, 0, m);
        lemma_obj_inc_mono(a1, a2, e, c, j + 1);
    }
}

/// Inclusive order-sensitive array monotonicity, index by index.
proof fn lemma_arr_inc_mono(a1: Val, a2: Val, e: Val, c: Config, i: int)
    requires
        a1 is Arr,
        a2 is Arr,
        e is Arr,
        a1->Arr_0.len() <= a2->Arr_0.len(),
        a2->Arr_0.subrange(0, a1->Arr_0.len() as int) == a1->Arr_0,
        eq_arr(a1, e, c, i),
        c.compare_mode == CompareMode::Inclusive,
        0 <= i,
    ensures
        eq_arr(a2, e, c, i),
    decreases e->Arr_0.len() - i,
{
    let n = a1->Arr_0.len() as int;
    if i < arr_limit(a2, e, c) {
        assert(a2->Arr_0.subrange(0, n)[i] == a2->Arr_0[i]);
        lemma_arr_inc_mono(a1, a2, e, c, i + 1);
    }
}

/// The greedy scan stays within bounds.
proof fn lemma_find_unused_bounds(arr: Val, used: Seq<bool>, y: Val, c: Config, i: int)
    requires
        0 <= i,
    ensures
        i <= find_unused(arr, used, y, c, i) || find_unused(arr, used, y, c, i) == arr->Arr_0.len(),
        0 <= find_unused(arr, used, y, c, i) <= arr->Arr_0.len(),
    decreases arr->Arr_0.len() - i,
{
    if i < arr->Arr_0.len() && arr is Arr {
        lemma_find_unused_bounds(arr, used, y, c, i + 1);
    }
}

/// The greedy scan finds the same element in the extended array as in the
/// original, as long as the original scan succeeds and the used marks agree
/// on the prefix while the extension is unused... stated for the exact used
/// sequences the greedy walk builds.
proof fn lemma_find_mono(a1: Val, a2: Val, u1: Seq<bool>, u2: Seq<bool>, y: Val, c: Config, i: int)
    requires
        a1 is Arr,
        a2 is Arr,
        a1->Arr_0.len() <= a2->Arr_0.len(),
        a2->Arr_0.subrange(0, a1->Arr_0.len() as int) == a1->Arr_0,
        u1.len() == a1->Arr_0.len(),
        u2.len() == a2->Arr_0.len(),
        forall|k: int| 0 <= k < u1.len() ==> u1[k] == u2[k],
        0 <= i,
        find_unused(a1, u1, y, c, i) < a1->Arr_0.len(),
    ensures
        find_unused(a2, u2, y, c, i) == find_unused(a1, u1, y, c, i),
    decreases a1->Arr_0.len() - i,
{
    let n = a1->Arr_0.len() as int;
    if i < n {
        assert(a2->Arr_0.subrange(0, n)[i] == a2->Arr_0[i]);
        if !(!u1[i] && eq_under(a1->Arr_0[i], y, c)) {
            lemma_find_mono(a1, a2, u1, u2, y, c, i + 1);
        }
    }
}

/// Greedy containment monotonicity: a greedy matching that succeeds against
/// the original array succeeds against the extended one, consuming the same
/// elements.
proof fn lemma_greedy_mono(
    a1: Val,
    a2: Val,
    ys: Seq<Val>,
    c: Config,
    j: int,
    u1: Seq<bool>,
    u2: Seq<bool>,
)
    requires
        a1 is Arr,
        a2 is Arr,
        a1->Arr_0.len() <= a2->Arr_0.len(),
        a2->Arr_0.subrange(0, a1->Arr_0.len() as int) == a1->Arr_0,
        u1.len() == a1->Arr_0.len(),
        u2.len() == a2->Arr_0.len(),
        forall|k: int| 0 <= k < u1.len() ==> u1[k] == u2[k],
        greedy_ok(a1, ys, c, j, u1),
    ensures
        greedy_ok(a2, ys, c, j, u2),
    decreases ys.len() - j,
{
    if 0 <= j < ys.len() {
        let i = find_unused(a1, u1, ys[j], c, 0);
        lemma_find_unused_bounds(a1, u1, ys[j], c, 0);
        lemma_find_mono(a1, a2, u1, u2, ys[j], c, 0);
        assert(0 <= i < u1.len());
        assert(u1.update(i, true).len() == u1.len());
        assert(u2.update(i, true).len() == u2.len());
        assert forall|k: int| 0 <= k < u1.len() implies u1.update(i, true)[k] == u2.update(
            i,
            true,
        )[k] by {
            assert(u1[k] == u2[k]);
        }
        lemma_greedy_mono(a1, a2, ys, c, j + 1, u1.update(i, true), u2.update(i, true));
    }
}

/// Inclusive monotonicity: when the actual value contains the expected
/// pattern, any extension of the actual value — extra object keys or extra
/// trailing array elements — still contains it.
pub proof fn lemma_inclusive_monotone(a1: Val, a2: Val, e: Val, c: Config)
    requires
        c.compare_mode == CompareMode::Inclusive,
        eq_under(a1, e, c),
        extends(a2, a1),
    ensures
        eq_under(a2, e, c),
{
    if a2 == a1 {
    } else if a1 is Obj && a2 is Obj && ext_obj(a2, a1, 0) {
        if e is Obj {
            lemma_obj_inc_mono(a1, a2, e, c, 0);
        }
    } else {
        if e is Arr {
            if c.array_sorting_mode == ArraySortingMode::Ignore {
                let n1 = a1->Arr_0.len();
                let n2 = a2->Arr_0.len();
                lemma_greedy_mono(
                    a1,
                    a2,
                    e->Arr_0,
                    c,
                    0,
                    Seq::new(n1, |k: int| false),
                    Seq::new(n2, |k: int| false),
                );
            } else {
                lemma_arr_inc_mono(a1, a2, e, c, 0);
            }
        }
    }
}

/// Inclusive monotonicity at the diff level: an empty diff against the
/// expected pattern stays empty after extending the actual value.
pub proof fn lemma_inclusive_diff_monotone(pfx: Seq<KeyV>, a1: Val, a2: Val, e: Val, c: Config)
    requires
        c.compare_mode == CompareMode::Inclusive,
        spec_diff(pfx, a1, e, c).len() == 0,
        extends(a2, a1),
    ensures
        spec_diff(pfx, a2, e, c).len() == 0,
{
    lemma_diff_empty(pfx, a1, e, c);
    lemma_inclusive_monotone(a1, a2, e, c);
    lemma_diff_empty(pfx, a2, e, c);
}

/// The other operand.
pub open spec fn flip_side(s: Side) -> Side {
    match s {
        Side::Lhs => Side::Rhs,
        Side::Rhs => Side::Lhs,
    }
}

/// One difference record as the swapped comparison reports it: the two
/// values of an atom mismatch change places, and a missing entry is missing
/// from the other operand.
pub open spec fn mirror_diff(d: DiffV) -> DiffV {
    match d {
        DiffV::AtomMismatch { path, lhs, rhs } => DiffV::AtomMismatch { path, lhs: rhs, rhs: lhs },
        DiffV::ObjectKeyMissing { path, side, other } => DiffV::ObjectKeyMissing {
            path,
            side: flip_side(side),
            other,
        },
        DiffV::ArrayIndexMissing { path, side, other } => DiffV::ArrayIndexMissing {
            path,
            side: flip_side(side),
            other,
        },
        DiffV::ArrayElementMissing { path, value } => DiffV::ArrayElementMissing { path, value },
    }
}

/// A difference list as the swapped comparison reports it.
pub open spec fn mirror_diffs(s: Seq<DiffV>) -> Seq<DiffV> {
    s.map_values(|d: DiffV| mirror_diff(d))
}

/// Mirroring distributes over concatenation.
proof fn lemma_mirror_app(s1: Seq<DiffV>, s2: Seq<DiffV>)
    ensures
        mirror_diffs(s1 + s2) == mirror_diffs(s1) + mirror_diffs(s2),
{
    assert(mirror_diffs(s1 + s2) =~= mirror_diffs(s1) + mirror_diffs(s2));
}

/// The canonical multiset a shared key `k` contributes: the differences of
/// the second operand's value against the first operand's value under it.
pub open spec fn shared_term(pfx: Seq<KeyV>, a: Val, b: Val, c: Config, k: Seq<char>) -> Multiset<
    DiffV,
> {
    spec_diff(pfx.push(KeyV::Field(k)), lookup(b->Obj_0, k), lookup(a->Obj_0, k), c).to_multiset()
}

/// The shared-key contributions in the first operand's entry order, from
/// entry `i` on.
pub open spec fn sum_a(pfx: Seq<KeyV>, a: Val, b: Val, c: Config, i: int) -> Multiset<DiffV>
    decreases a->Obj_0.len() - i,
{
    let aes = a->Obj_0;
    if i < 0 || i >= aes.len() {
        Multiset::empty()
    } else if has_key(b->Obj_0, aes[i].0) {
        shared_term(pfx, a, b, c, aes[i].0).add(sum_a(pfx, a, b, c, i + 1))
    } else {
        sum_a(pfx, a, b, c, i + 1)
    }
}

/// The shared-key contributions in the second operand's entry order from
/// entry `j` on, restricted to keys whose entry in the first operand sits at
/// index `i` or later.
pub open spec fn sum_b(pfx: Seq<KeyV>, a: Val, b: Val, c: Config, j: int, i: int) -> Multiset<
    DiffV,
>
    decreases b->Obj_0.len() - j,
{
    let aes = a->Obj_0;
    let bes = b->Obj_0;
    if j < 0 || j >= bes.len() {
        Multiset::empty()
    } else if has_key(aes, bes[j].0) && key_idx(aes, bes[j].0) >= i {
        shared_term(pfx, a, b, c, bes[j].0).add(sum_b(pfx, a, b, c, j + 1, i))
    } else {
        sum_b(pfx, a, b, c, j + 1, i)
    }
}

/// The missing-key records the walk over the first operand's entries emits,
/// from entry `i` on, with the given side.
pub open spec fn miss_a(pfx: Seq<KeyV>, a: Val, b: Val, c: Config, i: int, side: Side) -> Multiset<
    DiffV,
>
    decreases a->Obj_0.len() - i,
{
    let aes = a->Obj_0;
    if i < 0 || i >= aes.len() {
        Multiset::empty()
    } else if has_key(b->Obj_0, aes[i].0) {
        miss_a(pfx, a, b, c, i + 1, side)
    } else {
        miss_a(pfx, a, b, c, i + 1, side).insert(
            DiffV::ObjectKeyMissing {
                path: pfx.push(KeyV::Field(aes[i].0)),
                side,
                other: aes[i].1,
            },
        )
    }
}

/// The missing-key records the walk over the second operand's entries
/// emits, from entry `j` on, with the given side.
pub open spec fn miss_b(pfx: Seq<KeyV>, a: Val, b: Val, c: Config, j: int, side: Side) -> Multiset<
    DiffV,
>
    decreases b->Obj_0.len() - j,
{
    let bes = b->Obj_0;
    if j < 0 || j >= bes.len() {
        Multiset::empty()
    } else if has_key(a->Obj_0, bes[j].0) {
        miss_b(pfx, a, b, c, j + 1, side)
    } else {
        miss_b(pfx, a, b, c, j + 1, side).insert(
            DiffV::ObjectKeyMissing {
                path: pfx.push(KeyV::Field(bes[j].0)),
                side,
                other: bes[j].1,
            },
        )
    }
}

/// Restricting the second-operand walk to first-operand indices past the
/// end leaves nothing.
proof fn lemma_sum_b_done(pfx: Seq<KeyV>, a: Val, b: Val, c: Config, j: int, i: int)
    requires
        i >= a->Obj_0.len(),
    ensures
        sum_b(pfx, a, b, c, j, i) == Multiset::<DiffV>::empty(),
    decreases b->Obj_0.len() - j,
{
    let aes = a->Obj_0;
    let bes = b->Obj_0;
    if 0 <= j < bes.len() {
        if has_key(aes, bes[j].0) {
            lemma_key_idx(aes, bes[j].0);
        }
        lemma_sum_b_done(pfx, a, b, c, j + 1, i);
    }
}

/// Peeling the first operand's entry `i` off the restriction: the
/// second-operand walk gives up exactly that key's contribution.
proof fn lemma_sum_b_peel(pfx: Seq<KeyV>, a: Val, b: Val, c: Config, j: int, i: int)
    requires
        a is Obj,
        b is Obj,
        a.wf(),
        b.wf(),
        0 <= j,
        0 <= i < a->Obj_0.len(),
    ensures
        sum_b(pfx, a, b, c, j, i) == (if has_key(b->Obj_0, a->Obj_0[i].0) && key_idx(
            b->Obj_0,
            a->Obj_0[i].0,
        ) >= j {
            shared_term(pfx, a, b, c, a->Obj_0[i].0).add(sum_b(pfx, a, b, c, j, i + 1))
        } else {
            sum_b(pfx, a, b, c, j, i + 1)
        }),
    decreases b->Obj_0.len() - j,
{
    let aes = a->Obj_0;
    let bes = b->Obj_0;
    let ki = aes[i].0;
    lemma_wf_key_idx(a, i);
    lemma_key_idx(bes, ki);
    if j >= bes.len() {
    } else {
        let k = bes[j].0;
        lemma_wf_key_idx(b, j);
        lemma_key_idx(aes, k);
        lemma_sum_b_peel(pfx, a, b, c, j + 1, i);
        if k == ki {
            assert(key_idx(bes, ki) == j);
        } else {
            if has_key(aes, k) && key_idx(aes, k) == i {
                assert(aes[i].0 == k);
            }
            if key_idx(bes, ki) == j {
                assert(bes[j].0 == ki);
            }
        }
    }
}

/// The two entry orders give the same shared-key contributions.
proof fn lemma_sum_ab(pfx: Seq<KeyV>, a: Val, b: Val, c: Config, i: int)
    requires
        a is Obj,
        b is Obj,
        a.wf(),
        b.wf(),
        0 <= i,
    ensures
        sum_a(pfx, a, b, c, i) == sum_b(pfx, a, b, c, 0, i),
    decreases a->Obj_0.len() - i,
{
    let aes = a->Obj_0;
    if i >= aes.len() {
        lemma_sum_b_done(pfx, a, b, c, 0, i);
    } else {
        lemma_sum_b_peel(pfx, a, b, c, 0, i);
        lemma_sum_ab(pfx, a, b, c, i + 1);
        lemma_key_idx(b->Obj_0, aes[i].0);
    }
}

/// Decomposing the swapped strict walk over the second operand's entries:
/// shared contributions plus keys missing from the first operand's side.
proof fn lemma_own_b_decompose(pfx: Seq<KeyV>, a: Val, b: Val, c: Config, j: int)
    requires
        a is Obj,
        b is Obj,
        a.wf(),
        b.wf(),
        0 <= j,
    ensures
        obj_diffs_own(pfx, b, a, c, j).to_multiset() == sum_b(pfx, a, b, c, j, 0).add(
            miss_b(pfx, a, b, c, j, Side::Rhs),
        ),
    decreases b->Obj_0.len() - j,
{
    let aes = a->Obj_0;
    let bes = b->Obj_0;
    broadcast use vstd::seq_lib::group_to_multiset_ensures;

    if j >= bes.len() {
        assert(obj_diffs_own(pfx, b, a, c, j).to_multiset() =~= sum_b(pfx, a, b, c, j, 0).add(
            miss_b(pfx, a, b, c, j, Side::Rhs),
        ));
    } else {
        let k = bes[j].0;
        lemma_wf_key_idx(b, j);
        lemma_key_idx(aes, k);
        lemma_own_b_decompose(pfx, a, b, c, j + 1);
        let rest = obj_diffs_own(pfx, b, a, c, j + 1);
        if has_key(aes, k) {
            let here = spec_diff(pfx.push(KeyV::Field(k)), bes[j].1, lookup(aes, k), c);
            assert(obj_diffs_own(pfx, b, a, c, j) == here + rest);
            vstd::seq_lib::lemma_multiset_commutative(here, rest);
            assert(here.to_multiset() == shared_term(pfx, a, b, c, k));
            assert((here + rest).to_multiset() =~= sum_b(pfx, a, b, c, j, 0).add(
                miss_b(pfx, a, b, c, j, Side::Rhs),
            ));
        } else {
            let here = seq![
                DiffV::ObjectKeyMissing {
                    path: pfx.push(KeyV::Field(k)),
                    side: Side::Rhs,
                    other: bes[j].1,
                },
            ];
            assert(obj_diffs_own(pfx, b, a, c, j) == here + rest);
            vstd::seq_lib::lemma_multiset_commutative(here, rest);
            assert(here.to_multiset() =~= Multiset::<DiffV>::empty().insert(here[0]));
            assert((here + rest).to_multiset() =~= sum_b(pfx, a, b, c, j, 0).add(
                miss_b(pfx, a, b, c, j, Side::Rhs),
            ));
        }
    }
}

/// Decomposing the mirrored strict walk over the first operand's entries:
/// the canonical shared contributions plus keys missing from the first
/// operand... as the swapped comparison would report them.
proof fn lemma_own_a_decompose(pfx: Seq<KeyV>, a: Val, b: Val, c: Config, i: int)
    requires
        a is Obj,
        b is Obj,
        a.wf(),
        b.wf(),
        c.compare_mode == CompareMode::Strict,
        c.array_sorting_mode == ArraySortingMode::Consider,
        0 <= i,
    ensures
        mirror_diffs(obj_diffs_own(pfx, a, b, c, i)).to_multiset() == sum_a(pfx, a, b, c, i).add(
            miss_a(pfx, a, b, c, i, Side::Lhs),
        ),
    decreases a, 1int, a->Obj_0.len() - i,
{
    let aes = a->Obj_0;
    let bes = b->Obj_0;
    broadcast use vstd::seq_lib::group_to_multiset_ensures;

    if i >= aes.len() {
        assert(mirror_diffs(obj_diffs_own(pfx, a, b, c, i)) =~= Seq::<DiffV>::empty());
        assert(Seq::<DiffV>::empty().to_multiset() =~= sum_a(pfx, a, b, c, i).add(
            miss_a(pfx, a, b, c, i, Side::Lhs),
        ));
    } else {
        let k = aes[i].0;
        lemma_wf_key_idx(a, i);
        lemma_key_idx(bes, k);
        lemma_own_a_decompose(pfx, a, b, c, i + 1);
        let rest = obj_diffs_own(pfx, a, b, c, i + 1);
        if has_key(bes, k) {
            let here = spec_diff(pfx.push(KeyV::Field(k)), aes[i].1, lookup(bes, k), c);
            assert(obj_diffs_own(pfx, a, b, c, i) == here + rest);
            lemma_mirror_app(here, rest);
            vstd::seq_lib::lemma_multiset_commutative(mirror_diffs(here), mirror_diffs(rest));
            assert(decreases_to!(a => aes));
            assert(decreases_to!(aes => aes[i]));
            assert(decreases_to!(a => aes[i]));
            assert(decreases_to!(aes[i] => aes[i].1));
            assert(decreases_to!(a => aes[i].1));
            let idx = key_idx(bes, k);
            assert(bes[idx].1.wf());
            lemma_strict_mirror(pfx.push(KeyV::Field(k)), aes[i].1, lookup(bes, k), c);
            assert(mirror_diffs(here).to_multiset() == shared_term(pfx, a, b, c, k));
            assert((mirror_diffs(here) + mirror_diffs(rest)).to_multiset() =~= sum_a(
                pfx,
                a,
                b,
                c,
                i,
            ).add(miss_a(pfx, a, b, c, i, Side::Lhs)));
        } else {
            let here = seq![
                DiffV::ObjectKeyMissing {
                    path: pfx.push(KeyV::Field(k)),
                    side: Side::Rhs,
                    other: aes[i].1,
                },
            ];
            assert(obj_diffs_own(pfx, a, b, c, i) == here + rest);
            lemma_mirror_app(here, rest);
            vstd::seq_lib::lemma_multiset_commutative(mirror_diffs(here), mirror_diffs(rest));
            assert(mirror_diffs(here) =~= seq![
                DiffV::ObjectKeyMissing {
                    path: pfx.push(KeyV::Field(k)),
                    side: Side::Lhs,
                    other: aes[i].1,
                },
            ]);
            assert(mirror_diffs(here).to_multiset() =~= Multiset::<DiffV>::empty().insert(
                mirror_diffs(here)[0],
            ));
            assert((mirror_diffs(here) + mirror_diffs(rest)).to_multiset() =~= sum_a(
                pfx,
                a,
                b,
                c,
                i,
            ).add(miss_a(pfx, a, b, c, i, Side::Lhs)));
        }
    }
}

/// The mirrored strict walk over the second operand's extra keys.
proof fn lemma_other_a_decompose(pfx: Seq<KeyV>, a: Val, b: Val, c: Config, j: int)
    requires
        a is Obj,
        b is Obj,
        0 <= j,
    ensures
        mirror_diffs(obj_diffs_other(pfx, a, b, c, j)).to_multiset() == miss_b(
            pfx,
            a,
            b,
            c,
            j,
            Side::Rhs,
        ),
    decreases b->Obj_0.len() - j,
{
    let aes = a->Obj_0;
    let bes = b->Obj_0;
    broadcast use vstd::seq_lib::group_to_multiset_ensures;

    if j >= bes.len() {
        assert(mirror_diffs(obj_diffs_other(pfx, a, b, c, j)) =~= Seq::<DiffV>::empty());
        assert(Seq::<DiffV>::empty().to_multiset() =~= miss_b(pfx, a, b, c, j, Side::Rhs));
    } else {
        lemma_other_a_decompose(pfx, a, b, c, j + 1);
        let rest = obj_diffs_other(pfx, a, b, c, j + 1);
        if has_key(aes, bes[j].0) {
            assert(obj_diffs_other(pfx, a, b, c, j) == Seq::<DiffV>::empty() + rest);
            assert(Seq::<DiffV>::empty() + rest =~= rest);
        } else {
            let here = seq![
                DiffV::ObjectKeyMissing {
                    path: pfx.push(KeyV::Field(bes[j].0)),
                    side: Side::Lhs,
                    other: bes[j].1,
                },
            ];
            assert(obj_diffs_other(pfx, a, b, c, j) == here + rest);
            lemma_mirror_app(here, rest);
            vstd::seq_lib::lemma_multiset_commutative(mirror_diffs(here), mirror_diffs(rest));
            assert(mirror_diffs(here) =~= seq![
                DiffV::ObjectKeyMissing {
                    path: pfx.push(KeyV::Field(bes[j].0)),
                    side: Side::Rhs,
                    other: bes[j].1,
                },
            ]);
            assert(mirror_diffs(here).to_multiset() =~= Multiset::<DiffV>::empty().insert(
                mirror_diffs(here)[0],
            ));
            assert((mirror_diffs(here) + mirror_diffs(rest)).to_multiset() =~= miss_b(
                pfx,
                a,
                b,
                c,
                j,
                Side::Rhs,
            ));
        }
    }
}

/// The swapped strict walk over the first operand's extra keys.
proof fn lemma_other_b_decompose(pfx: Seq<KeyV>, a: Val, b: Val, c: Config, i: int)
    requires
        a is Obj,
        b is Obj,
        0 <= i,
    ensures
        obj_diffs_other(pfx, b, a, c, i).to_multiset() == miss_a(pfx, a, b, c, i, Side::Lhs),
    decreases a->Obj_0.len() - i,
{
    let aes = a->Obj_0;
    let bes = b->Obj_0;
    broadcast use vstd::seq_lib::group_to_multiset_ensures;

    if i >= aes.len() {
        assert(obj_diffs_other(pfx, b, a, c, i).to_multiset() =~= miss_a(
            pfx,
            a,
            b,
            c,
            i,
            Side::Lhs,
        ));
    } else {
        lemma_other_b_decompose(pfx, a, b, c, i + 1);
        let rest = obj_diffs_other(pfx, b, a, c, i + 1);
        if has_key(bes, aes[i].0) {
            assert(obj_diffs_other(pfx, b, a, c, i) == Seq::<DiffV>::empty() + rest);
            assert(Seq::<DiffV>::empty() + rest =~= rest);
        } else {
            let here = seq![
                DiffV::ObjectKeyMissing {
                    path: pfx.push(KeyV::Field(aes[i].0)),
                    side: Side::Lhs,
                    other: aes[i].1,
                },
            ];
            assert(obj_diffs_other(pfx, b, a, c, i) == here + rest);
            vstd::seq_lib::lemma_multiset_commutative(here, rest);
            assert(here.to_multiset() =~= Multiset::<DiffV>::empty().insert(here[0]));
            assert((here + rest).to_multiset() =~= miss_a(pfx, a, b, c, i, Side::Lhs));
        }
    }
}

/// The order-sensitive array walks of the two operand orders mirror each
/// other.
proof fn lemma_arr_mirror(pfx: Seq<KeyV>, a: Val, b: Val, c: Config, i: int)
    requires
        a is Arr,
        b is Arr,
        a.wf(),
        b.wf(),
        c.compare_mode == CompareMode::Strict,
        c.array_sorting_mode == ArraySortingMode::Consider,
        0 <= i,
    ensures
        arr_diffs(pfx, b, a, c, i).to_multiset() == mirror_diffs(
            arr_diffs(pfx, a, b, c, i),
        ).to_multiset(),
    decreases a, 1int, arr_limit(a, b, c) - i,
{
    let xs = a->Arr_0;
    let ys = b->Arr_0;
    broadcast use vstd::seq_lib::group_to_multiset_ensures;

    if i >= arr_limit(a, b, c) {
        assert(mirror_diffs(arr_diffs(pfx, a, b, c, i)) =~= Seq::<DiffV>::empty());
    } else {
        lemma_arr_mirror(pfx, a, b, c, i + 1);
        let rest_ab = arr_diffs(pfx, a, b, c, i + 1);
        let rest_ba = arr_diffs(pfx, b, a, c, i + 1);
        let here_ab = if i < xs.len() && i < ys.len() {
            spec_diff(pfx.push(KeyV::Idx(i)), xs[i], ys[i], c)
        } else if i < xs.len() {
            seq![
                DiffV::ArrayIndexMissing {
                    path: pfx.push(KeyV::Idx(i)),
                    side: Side::Rhs,
                    other: xs[i],
                },
            ]
        } else {
            seq![
                DiffV::ArrayIndexMissing {
                    path: pfx.push(KeyV::Idx(i)),
                    side: Side::Lhs,
                    other: ys[i],
                },
            ]
        };
        let here_ba = if i < xs.len() && i < ys.len() {
            spec_diff(pfx.push(KeyV::Idx(i)), ys[i], xs[i], c)
        } else if i < ys.len() {
            seq![
                DiffV::ArrayIndexMissing {
                    path: pfx.push(KeyV::Idx(i)),
                    side: Side::Rhs,
                    other: ys[i],
                },
            ]
        } else {
            seq![
                DiffV::ArrayIndexMissing {
                    path: pfx.push(KeyV::Idx(i)),
                    side: Side::Lhs,
                    other: xs[i],
                },
            ]
        };
        assert(arr_diffs(pfx, a, b, c, i) == here_ab + rest_ab);
        assert(arr_diffs(pfx, b, a, c, i) == here_ba + rest_ba);
        if i < xs.len() && i < ys.len() {
            assert(decreases_to!(a => xs));
            assert(decreases_to!(xs => xs[i]));
            assert(decreases_to!(a => xs[i]));
            lemma_strict_mirror(pfx.push(KeyV::Idx(i)), xs[i], ys[i], c);
        } else {
            assert(here_ba =~= mirror_diffs(here_ab));
        }
        lemma_mirror_app(here_ab, rest_ab);
        vstd::seq_lib::lemma_multiset_commutative(here_ba, rest_ba);
        vstd::seq_lib::lemma_multiset_commutative(mirror_diffs(here_ab), mirror_diffs(rest_ab));
        assert((here_ba + rest_ba).to_multiset() =~= (mirror_diffs(here_ab) + mirror_diffs(
            rest_ab,
        )).to_multiset());
    }
}

/// Strict mirror images: the differences the swapped comparison reports are
/// exactly the mirrored records of the original comparison — the same paths,
/// with the operands' roles exchanged — up to report order.
pub proof fn lemma_strict_mirror(pfx: Seq<KeyV>, a: Val, b: Val, c: Config)
    requires
        a.wf(),
        b.wf(),
        c.compare_mode == CompareMode::Strict,
        c.array_sorting_mode == ArraySortingMode::Consider,
    ensures
        spec_diff(pfx, b, a, c).to_multiset() == mirror_diffs(spec_diff(pfx, a, b, c)).to_multiset(),
    decreases a, 2int, 0int,
{
    broadcast use vstd::seq_lib::group_to_multiset_ensures;

    match (a, b) {
        (Val::Arr(xs), Val::Arr(ys)) => {
            lemma_arr_mirror(pfx, a, b, c, 0);
        },
        (Val::Obj(aes), Val::Obj(bes)) => {
            let own_ba = obj_diffs_own(pfx, b, a, c, 0);
            let other_ba = obj_diffs_other(pfx, b, a, c, 0);
            let own_ab = obj_diffs_own(pfx, a, b, c, 0);
            let other_ab = obj_diffs_other(pfx, a, b, c, 0);
            lemma_own_b_decompose(pfx, a, b, c, 0);
            lemma_other_b_decompose(pfx, a, b, c, 0);
            lemma_own_a_decompose(pfx, a, b, c, 0);
            lemma_other_a_decompose(pfx, a, b, c, 0);
            lemma_sum_ab(pfx, a, b, c, 0);
            vstd::seq_lib::lemma_multiset_commutative(own_ba, other_ba);
            lemma_mirror_app(own_ab, other_ab);
            vstd::seq_lib::lemma_multiset_commutative(mirror_diffs(own_ab), mirror_diffs(other_ab));
            assert((own_ba + other_ba).to_multiset() =~= mirror_diffs(own_ab + other_ab)
                .to_multiset());
        },
        (Val::Num(x), Val::Num(y)) => {
            lemma_num_sym(x, y, c.numeric_mode, c.float_compare_mode);
            assert(spec_diff(pfx, b, a, c) =~= mirror_diffs(spec_diff(pfx, a, b, c)));
        },
        _ => {
            assert(spec_diff(pfx, b, a, c) =~= mirror_diffs(spec_diff(pfx, a, b, c)));
        },
    }
}

} // verus!
