use vstd::prelude::*;
use crate::value::{Doc, Value, entries_view, unique_keys, entries_wf, lemma_entries_view_dom,
    lemma_entries_view_index, lemma_entries_view_push, lemma_entries_view_remove,
    lemma_entries_wf, obj_find, obj_insert, obj_remove, value_eq};

verus! {

/// One discrepancy between a first and a second document at one key.
#[derive(Debug, PartialEq)]
pub enum Difference {
    /// The key is present only in the first document, with its value there.
    OnlyInFirst(String, Value),
    /// The key is present only in the second document, with its value there.
    OnlyInSecond(String, Value),
    /// The key is present in both documents with unequal values that are
    /// not both objects; carries the first and the second value.
    DifferentValues(String, Value, Value),
    /// The key holds an object in both documents; carries the non-empty
    /// list of differences found inside.
    NestedDifference(String, Vec<Difference>),
}

/// The model of one difference.
pub ghost enum DiffDoc {
    OnlyInFirst(Seq<char>, Doc),
    OnlyInSecond(Seq<char>, Doc),
    DifferentValues(Seq<char>, Doc, Doc),
    NestedDifference(Seq<char>, Seq<DiffDoc>),
}

/// The model of one difference value.
pub open spec fn diff_model(d: Difference) -> DiffDoc
    decreases d,
{
    match d {
        Difference::OnlyInFirst(k, v) => DiffDoc::OnlyInFirst(k@, v@),
        Difference::OnlyInSecond(k, v) => DiffDoc::OnlyInSecond(k@, v@),
        Difference::DifferentValues(k, x, y) => DiffDoc::DifferentValues(k@, x@, y@),
        Difference::NestedDifference(k, ds) => DiffDoc::NestedDifference(k@, diffs_view(ds@)),
    }
}

/// The model of a change-set, difference by difference.
pub open spec fn diffs_view(s: Seq<Difference>) -> Seq<DiffDoc>
    decreases s,
{
    if s.len() == 0 {
        Seq::empty()
    } else {
        diffs_view(s.drop_last()).push(diff_model(s.last()))
    }
}

impl View for Difference {
    type V = DiffDoc;

    open spec fn view(&self) -> DiffDoc {
        diff_model(*self)
    }
}

/// Every value carried in a difference is well formed.
pub open spec fn diff_wf(d: Difference) -> bool
    decreases d,
{
    match d {
        Difference::OnlyInFirst(_, v) => v.wf(),
        Difference::OnlyInSecond(_, v) => v.wf(),
        Difference::DifferentValues(_, x, y) => x.wf() && y.wf(),
        Difference::NestedDifference(_, ds) => diffs_wf(ds@),
    }
}

/// Every value carried in a change-set is well formed.
pub open spec fn diffs_wf(s: Seq<Difference>) -> bool
    decreases s,
{
    s.len() == 0 || (diff_wf(s.last()) && diffs_wf(s.drop_last()))
}

pub proof fn lemma_diffs_view(s: Seq<Difference>)
    ensures
        diffs_view(s).len() == s.len(),
        forall|i: int| 0 <= i < s.len() ==> #[trigger] diffs_view(s)[i] == diff_model(s[i]),
    decreases s,
{
    if s.len() > 0 {
        lemma_diffs_view(s.drop_last());
        assert forall|i: int| 0 <= i < s.len()
            implies #[trigger] diffs_view(s)[i] == diff_model(s[i]) by {
            if i < s.len() - 1 {
                assert(s.drop_last()[i] == s[i]);
            }
        }
    }
}

pub proof fn lemma_diffs_wf(s: Seq<Difference>)
    ensures
        diffs_wf(s) <==> (forall|i: int| 0 <= i < s.len() ==> diff_wf(#[trigger] s[i])),
    decreases s,
{
    if s.len() > 0 {
        lemma_diffs_wf(s.drop_last());
        assert forall|i: int| 0 <= i < s.drop_last().len()
            implies s.drop_last()[i] == s[i] by {}
    }
}

/// The key a difference speaks about.
pub open spec fn diff_key(d: DiffDoc) -> Seq<char> {
    match d {
        DiffDoc::OnlyInFirst(k, _) => k,
        DiffDoc::OnlyInSecond(k, _) => k,
        DiffDoc::DifferentValues(k, _, _) => k,
        DiffDoc::NestedDifference(k, _) => k,
    }
}

/// The effect of replaying one difference onto a target document.
/// A target that is not an object is left unchanged.
pub open spec fn apply_one(target: Doc, d: DiffDoc) -> Doc
    decreases d,
{
    if target is Object {
        let m = target->Object_0;
        match d {
            DiffDoc::OnlyInFirst(k, _) => Doc::Object(m.remove(k)),
            DiffDoc::OnlyInSecond(k, v) => Doc::Object(m.insert(k, v)),
            DiffDoc::DifferentValues(k, _, y) => Doc::Object(m.insert(k, y)),
            DiffDoc::NestedDifference(k, cs) => {
                let base = if m.dom().contains(k) {
                    m[k]
                } else {
                    Doc::Object(Map::empty())
                };
                Doc::Object(m.insert(k, apply_seq(base, cs)))
            }
        }
    } else {
        target
    }
}

/// The effect of replaying a change-set onto a target, in order.
pub open spec fn apply_seq(target: Doc, ds: Seq<DiffDoc>) -> Doc
    decreases ds,
{
    if ds.len() == 0 {
        target
    } else {
        apply_seq(apply_one(target, ds[0]), ds.drop_first())
    }
}

/// Whether the documents at key `k` call for an entry in the change-set.
pub open spec fn differing(ma: Map<Seq<char>, Doc>, mb: Map<Seq<char>, Doc>, k: Seq<char>) -> bool {
    (ma.dom().contains(k) != mb.dom().contains(k))
        || (ma.dom().contains(k) && mb.dom().contains(k) && ma[k] != mb[k])
}

/// Whether some element of the change-set speaks about key `k`.
pub open spec fn covers(ds: Seq<DiffDoc>, k: Seq<char>) -> bool {
    exists|i: int| 0 <= i < ds.len() && diff_key(#[trigger] ds[i]) == k
}

/// No two elements of the change-set speak about the same key.
pub open spec fn distinct_keys(ds: Seq<DiffDoc>) -> bool {
    forall|i: int, j: int| 0 <= i < j < ds.len()
        ==> diff_key(#[trigger] ds[i]) != diff_key(#[trigger] ds[j])
}

/// One element correctly describes the discrepancy at its key between
/// the object contents `ma` (first) and `mb` (second).
pub open spec fn elem_ok(ma: Map<Seq<char>, Doc>, mb: Map<Seq<char>, Doc>, d: DiffDoc) -> bool
    decreases d, 0int,
{
    match d {
        DiffDoc::OnlyInFirst(k, v) => ma.dom().contains(k) && !mb.dom().contains(k) && v == ma[k],
        DiffDoc::OnlyInSecond(k, v) => !ma.dom().contains(k) && mb.dom().contains(k) && v == mb[k],
        DiffDoc::DifferentValues(k, x, y) => ma.dom().contains(k) && mb.dom().contains(k)
            && ma[k] != mb[k] && !(ma[k] is Object && mb[k] is Object)
            && x == ma[k] && y == mb[k],
        DiffDoc::NestedDifference(k, cs) => ma.dom().contains(k) && mb.dom().contains(k)
            && ma[k] is Object && mb[k] is Object && ma[k] != mb[k] && cs.len() > 0
            && obj_diff_ok(ma[k]->Object_0, mb[k]->Object_0, cs),
    }
}

/// Every element of the change-set is correct for `ma` and `mb`.
pub open spec fn elems_ok(ma: Map<Seq<char>, Doc>, mb: Map<Seq<char>, Doc>, ds: Seq<DiffDoc>) -> bool
    decreases ds, 0int,
{
    ds.len() == 0 || (elem_ok(ma, mb, ds.last()) && elems_ok(ma, mb, ds.drop_last()))
}

/// The change-set is exactly a diff of the object contents `ma` (first)
/// against `mb` (second): each element is sound, keys are not repeated,
/// and every key on which the two differ is covered.
pub open spec fn obj_diff_ok(ma: Map<Seq<char>, Doc>, mb: Map<Seq<char>, Doc>, ds: Seq<DiffDoc>) -> bool
    decreases ds, 1int,
{
    &&& elems_ok(ma, mb, ds)
    &&& distinct_keys(ds)
    &&& forall|k: Seq<char>| #[trigger] differing(ma, mb, k) ==> covers(ds, k)
}

/// The change-set is exactly what detection yields for the documents
/// `a` (first) and `b` (second): a key-by-key diff when both are
/// objects; otherwise nothing when the two are equal, and one
/// whole-document replacement entry under the empty key when not.
pub open spec fn is_diff_of(a: Doc, b: Doc, ds: Seq<DiffDoc>) -> bool {
    if a is Object && b is Object {
        obj_diff_ok(a->Object_0, b->Object_0, ds)
    } else if a == b {
        ds == Seq::<DiffDoc>::empty()
    } else {
        ds == seq![DiffDoc::DifferentValues(Seq::empty(), a, b)]
    }
}

pub proof fn lemma_elems_ok_iff(ma: Map<Seq<char>, Doc>, mb: Map<Seq<char>, Doc>, ds: Seq<DiffDoc>)
    ensures
        elems_ok(ma, mb, ds) <==> (forall|i: int|
            0 <= i < ds.len() ==> elem_ok(ma, mb, #[trigger] ds[i])),
    decreases ds,
{
    if ds.len() > 0 {
        lemma_elems_ok_iff(ma, mb, ds.drop_last());
        assert forall|i: int| 0 <= i < ds.drop_last().len()
            implies ds.drop_last()[i] == ds[i] by {}
    }
}

/// An element about a key other than `k0` is insensitive to what `k0`
/// is mapped to on the first side.
proof fn lemma_elem_ok_stable(
    ma1: Map<Seq<char>, Doc>,
    ma2: Map<Seq<char>, Doc>,
    mb: Map<Seq<char>, Doc>,
    d: DiffDoc,
    k0: Seq<char>,
)
    requires
        elem_ok(ma1, mb, d),
        diff_key(d) != k0,
        forall|k: Seq<char>| k != k0
            ==> (ma1.dom().contains(k) <==> #[trigger] ma2.dom().contains(k)),
        forall|k: Seq<char>| k != k0 && ma1.dom().contains(k) ==> ma1[k] == #[trigger] ma2[k],
    ensures
        elem_ok(ma2, mb, d),
{
    let k = diff_key(d);
    if ma1.dom().contains(k) {
        assert(ma2[k] == ma1[k]);
    }
}

/// A change-set that is an exact empty diff of two object contents
/// forces the two to be equal.
pub proof fn lemma_obj_diff_empty(ma: Map<Seq<char>, Doc>, mb: Map<Seq<char>, Doc>)
    requires
        obj_diff_ok(ma, mb, Seq::empty()),
    ensures
        ma == mb,
{
    assert forall|k: Seq<char>| ma.dom().contains(k) implies mb.dom().contains(k) by {
        if !mb.dom().contains(k) {
            assert(differing(ma, mb, k));
        }
    }
    assert forall|k: Seq<char>| mb.dom().contains(k) implies ma.dom().contains(k) by {
        if !ma.dom().contains(k) {
            assert(differing(ma, mb, k));
        }
    }
    assert forall|k: Seq<char>| ma.dom().contains(k) implies ma[k] == mb[k] by {
        if ma[k] != mb[k] {
            assert(differing(ma, mb, k));
        }
    }
    assert(ma =~= mb);
}

/// Replaying an exact diff of two object contents onto the first
/// yields the second.
pub proof fn lemma_obj_apply(ma: Map<Seq<char>, Doc>, mb: Map<Seq<char>, Doc>, ds: Seq<DiffDoc>)
    requires
        obj_diff_ok(ma, mb, ds),
    ensures
        apply_seq(Doc::Object(ma), ds) == Doc::Object(mb),
    decreases ds,
{
    lemma_elems_ok_iff(ma, mb, ds);
    if ds.len() == 0 {
        lemma_obj_diff_empty(ma, mb);
    } else {
        let d0 = ds[0];
        let k0 = diff_key(d0);
        assert(elem_ok(ma, mb, d0));
        let next = apply_one(Doc::Object(ma), d0);
        let ma2 = next->Object_0;
        let rest = ds.drop_first();
        assert(forall|l: int| 0 <= l < rest.len() ==> #[trigger] rest[l] == ds[l + 1]);
        // The applied first side now agrees with the second at `k0`.
        match d0 {
            DiffDoc::OnlyInFirst(k, _) => {
                assert(ma2 =~= ma.remove(k));
            }
            DiffDoc::OnlyInSecond(k, v) => {
                assert(ma2 =~= ma.insert(k, v));
            }
            DiffDoc::DifferentValues(k, _, y) => {
                assert(ma2 =~= ma.insert(k, y));
            }
            DiffDoc::NestedDifference(k, cs) => {
                lemma_obj_apply(ma[k]->Object_0, mb[k]->Object_0, cs);
                assert(apply_seq(ma[k], cs) == Doc::Object(mb[k]->Object_0));
                assert(apply_seq(ma[k], cs) == mb[k]);
                assert(ma2 =~= ma.insert(k, mb[k]));
            }
        }
        assert(!differing(ma2, mb, k0));
        // The remaining elements still describe the remaining keys.
        assert forall|l: int| 0 <= l < rest.len() implies elem_ok(ma2, mb, #[trigger] rest[l]) by {
            assert(rest[l] == ds[l + 1]);
            assert(elem_ok(ma, mb, ds[l + 1]));
            assert(diff_key(ds[l + 1]) != k0);
            lemma_elem_ok_stable(ma, ma2, mb, ds[l + 1], k0);
        }
        lemma_elems_ok_iff(ma2, mb, rest);
        assert forall|k: Seq<char>| #[trigger] differing(ma2, mb, k) implies covers(rest, k) by {
            if k == k0 {
                assert(false);
            } else {
                assert(differing(ma, mb, k));
                let i = choose|i: int| 0 <= i < ds.len() && diff_key(#[trigger] ds[i]) == k;
                assert(i != 0);
                assert(rest[i - 1] == ds[i]);
            }
        }
        assert(obj_diff_ok(ma2, mb, rest));
        lemma_obj_apply(ma2, mb, rest);
    }
}

/// Round trip: replaying the differences detected between two
/// object-shaped documents onto the first yields the second.
pub proof fn lemma_apply_detect_round_trip(a: Doc, b: Doc, ds: Seq<DiffDoc>)
    requires
        a is Object,
        b is Object,
        is_diff_of(a, b, ds),
    ensures
        apply_seq(a, ds) == b,
{
    lemma_obj_apply(a->Object_0, b->Object_0, ds);
}

/// Detecting differences between any document and itself yields the
/// empty change-set.
pub proof fn lemma_diff_self_empty(a: Doc, ds: Seq<DiffDoc>)
    requires
        is_diff_of(a, a, ds),
    ensures
        ds == Seq::<DiffDoc>::empty(),
{
    if a is Object {
        let m = a->Object_0;
        if ds.len() > 0 {
            lemma_elems_ok_iff(m, m, ds);
            assert(elem_ok(m, m, ds[0]));
            assert(false);
        }
        assert(ds =~= Seq::<DiffDoc>::empty());
    }
}

/// Arrays are atomic: a key holding unequal arrays on the two sides is
/// reported as one whole-value replacement, never descended into.
pub proof fn lemma_array_diff_atomic(
    ma: Map<Seq<char>, Doc>,
    mb: Map<Seq<char>, Doc>,
    ds: Seq<DiffDoc>,
    k: Seq<char>,
)
    requires
        obj_diff_ok(ma, mb, ds),
        ma.dom().contains(k),
        mb.dom().contains(k),
        ma[k] is Array,
        mb[k] is Array,
        ma[k] != mb[k],
    ensures
        exists|i: int| 0 <= i < ds.len()
            && #[trigger] ds[i] == DiffDoc::DifferentValues(k, ma[k], mb[k]),
        forall|i: int| 0 <= i < ds.len() && diff_key(#[trigger] ds[i]) == k
            ==> ds[i] == DiffDoc::DifferentValues(k, ma[k], mb[k]),
{
    lemma_elems_ok_iff(ma, mb, ds);
    assert(differing(ma, mb, k));
    let i = choose|i: int| 0 <= i < ds.len() && diff_key(#[trigger] ds[i]) == k;
    assert(elem_ok(ma, mb, ds[i]));
    assert(ds[i] == DiffDoc::DifferentValues(k, ma[k], mb[k]));
    assert forall|j: int| 0 <= j < ds.len() && diff_key(#[trigger] ds[j]) == k
        implies ds[j] == DiffDoc::DifferentValues(k, ma[k], mb[k]) by {
        if j != i {
            assert(diff_key(ds[i]) != diff_key(ds[j]));
        }
    }
}

/// A change-set leaves a target that is not an object untouched.
pub proof fn lemma_apply_seq_non_object(t: Doc, ds: Seq<DiffDoc>)
    requires
        !(t is Object),
    ensures
        apply_seq(t, ds) == t,
    decreases ds,
{
    if ds.len() > 0 {
        lemma_apply_seq_non_object(t, ds.drop_first());
        assert(apply_one(t, ds[0]) == t);
        assert(apply_seq(t, ds) == apply_seq(apply_one(t, ds[0]), ds.drop_first()));
    }
}

/// Replaying one more difference continues from the document the
/// earlier ones produced.
pub proof fn lemma_apply_seq_push(t: Doc, ds: Seq<DiffDoc>, d: DiffDoc)
    ensures
        apply_seq(t, ds.push(d)) == apply_one(apply_seq(t, ds), d),
    decreases ds,
{
    if ds.len() == 0 {
        assert(ds.push(d)[0] == d);
        assert(ds.push(d).drop_first() =~= Seq::<DiffDoc>::empty());
        assert(apply_seq(t, ds.push(d))
            == apply_seq(apply_one(t, d), Seq::<DiffDoc>::empty()));
        assert(apply_seq(apply_one(t, d), Seq::<DiffDoc>::empty()) == apply_one(t, d));
        assert(apply_seq(t, ds) == t);
    } else {
        assert(ds.push(d)[0] == ds[0]);
        assert(ds.push(d).drop_first() =~= ds.drop_first().push(d));
        assert(apply_seq(t, ds.push(d))
            == apply_seq(apply_one(t, ds[0]), ds.drop_first().push(d)));
        assert(apply_seq(t, ds) == apply_seq(apply_one(t, ds[0]), ds.drop_first()));
        lemma_apply_seq_push(apply_one(t, ds[0]), ds.drop_first(), d);
    }
}

/// Replays a change-set onto a target document in place.  Each
/// difference takes effect only while the target is an object; on any
/// other target the whole change-set is a no-op.
#[verifier::loop_isolation(false)]
pub fn apply_differences(target: &mut Value, differences: &[Difference])
    requires
        old(target).wf(),
        diffs_wf(differences@),
    ensures
        final(target).wf(),
        final(target)@ == apply_seq(old(target)@, diffs_view(differences@)),
    decreases differences@,
{
    proof {
        lemma_diffs_view(differences@);
        lemma_diffs_wf(differences@);
    }
    let ghost dsv = diffs_view(differences@);
    match target {
        Value::Object(entries) => {
            let ghost m0 = entries_view(entries@);
            let mut i: usize = 0;
            while i < differences.len()
                invariant
                    i <= differences@.len(),
                    unique_keys(entries@),
                    entries_wf(entries@),
                    Doc::Object(entries_view(entries@))
                        == apply_seq(Doc::Object(m0), dsv.take(i as int)),
                decreases differences@.len() - i,
            {
                let ghost pre = entries_view(entries@);
                proof {
                    assert(dsv.take(i as int + 1) =~= dsv.take(i as int).push(dsv[i as int]));
                    lemma_apply_seq_push(Doc::Object(m0), dsv.take(i as int), dsv[i as int]);
                    assert(dsv[i as int] == diff_model(differences@[i as int]));
                    assert(diff_wf(differences@[i as int]));
                }
                match &differences[i] {
                    Difference::OnlyInSecond(k, v) => {
                        obj_insert(entries, k.clone(), v.deep_copy());
                    }
                    Difference::OnlyInFirst(k, _) => {
                        obj_remove(entries, k);
                    }
                    Difference::DifferentValues(k, _, nv) => {
                        obj_insert(entries, k.clone(), nv.deep_copy());
                    }
                    Difference::NestedDifference(k, nested) => {
                        match obj_find(entries, k) {
                            Some(j) => {
                                let ghost e0 = entries@;
                                proof {
                                    lemma_entries_view_index(e0, j as int);
                                    lemma_entries_view_remove(e0, j as int);
                                    lemma_entries_wf(e0);
                                    lemma_entries_wf(e0.remove(j as int));
                                }
                                let (kk, mut inner) = entries.remove(j);
                                apply_differences(&mut inner, nested.as_slice());
                                proof {
                                    assert forall|l: int| 0 <= l < entries@.len()
                                        implies (#[trigger] entries@[l]).0@ != kk@ by {
                                        if l < j {
                                            assert(entries@[l] == e0[l]);
                                        } else {
                                            assert(entries@[l] == e0[l + 1]);
                                        }
                                    }
                                    lemma_entries_view_push(entries@, kk, inner);
                                }
                                entries.push((kk, inner));
                                proof {
                                    assert(entries_view(entries@)
                                        =~= pre.insert(k@, apply_seq(pre[k@], diffs_view(nested@))));
                                }
                            }
                            None => {
                                proof {
                                    lemma_entries_view_dom(entries@);
                                    lemma_entries_wf(entries@);
                                }
                                let mut inner = Value::Object(Vec::new());
                                apply_differences(&mut inner, nested.as_slice());
                                let kc = k.clone();
                                proof {
                                    lemma_entries_view_push(entries@, kc, inner);
                                }
                                entries.push((kc, inner));
                            }
                        }
                    }
                }
                proof {
                    assert(Doc::Object(entries_view(entries@))
                        == apply_one(Doc::Object(pre), dsv[i as int]));
                }
                i += 1;
            }
            proof {
                assert(dsv.take(differences@.len() as int) =~= dsv);
            }
        }
        _ => {
            proof {
                lemma_apply_seq_non_object(old(target)@, dsv);
            }
        }
    }
}

/// Whether key `k` is the key of one of the first `n` entries.
pub open spec fn key_from_prefix(s: Seq<(String, Value)>, n: int, k: Seq<char>) -> bool {
    exists|j: int| 0 <= j < n && (#[trigger] s[j]).0@ == k
}

pub proof fn lemma_prefix_step(s: Seq<(String, Value)>, n: int)
    requires
        0 <= n < s.len(),
    ensures
        forall|k: Seq<char>| #[trigger] key_from_prefix(s, n, k) ==> key_from_prefix(s, n + 1, k),
        forall|k: Seq<char>| #[trigger] key_from_prefix(s, n + 1, k)
            ==> key_from_prefix(s, n, k) || k == s[n].0@,
        key_from_prefix(s, n + 1, s[n].0@),
{
    assert forall|k: Seq<char>| #[trigger] key_from_prefix(s, n, k)
        implies key_from_prefix(s, n + 1, k) by {
        let j = choose|j: int| 0 <= j < n && (#[trigger] s[j]).0@ == k;
        assert(0 <= j < n + 1 && s[j].0@ == k);
    }
    assert forall|k: Seq<char>| #[trigger] key_from_prefix(s, n + 1, k)
        implies key_from_prefix(s, n, k) || k == s[n].0@ by {
        let j = choose|j: int| 0 <= j < n + 1 && (#[trigger] s[j]).0@ == k;
        if j < n {
            assert(0 <= j < n && s[j].0@ == k);
        }
    }
    assert(0 <= n < n + 1 && s[n].0@ == s[n].0@);
}

/// Computes the key-by-key differences of two object entry lists:
/// first the keys of the first list (missing from, or changed in, the
/// second), then the keys only the second list has.
#[verifier::loop_isolation(false)]
fn diff_objects(ea: &Vec<(String, Value)>, eb: &Vec<(String, Value)>) -> (r: Vec<Difference>)
    requires
        unique_keys(ea@),
        entries_wf(ea@),
        unique_keys(eb@),
        entries_wf(eb@),
    ensures
        obj_diff_ok(entries_view(ea@), entries_view(eb@), diffs_view(r@)),
        diffs_wf(r@),
    decreases ea@,
{
    let ghost ma = entries_view(ea@);
    let ghost mb = entries_view(eb@);
    proof {
        lemma_entries_view_dom(ea@);
        lemma_entries_view_dom(eb@);
        lemma_entries_wf(ea@);
        lemma_entries_wf(eb@);
    }
    let mut out: Vec<Difference> = Vec::new();
    let mut i: usize = 0;
    while i < ea.len()
        invariant
            i <= ea@.len(),
            diffs_view(out@).len() == out@.len(),
            forall|l: int| 0 <= l < out@.len() ==> elem_ok(ma, mb, #[trigger] diffs_view(out@)[l]),
            forall|l: int| 0 <= l < out@.len() ==> diff_wf(#[trigger] out@[l]),
            forall|l: int| 0 <= l < out@.len()
                ==> key_from_prefix(ea@, i as int, diff_key(#[trigger] diffs_view(out@)[l])),
            distinct_keys(diffs_view(out@)),
            forall|k: Seq<char>| #[trigger] key_from_prefix(ea@, i as int, k) && differing(ma, mb, k)
                ==> covers(diffs_view(out@), k),
        decreases ea@.len() - i,
    {
        let ghost out0 = out@;
        proof {
            lemma_entries_view_index(ea@, i as int);
            lemma_prefix_step(ea@, i as int);
        }
        let k = &ea[i].0;
        let v1 = &ea[i].1;
        match obj_find(eb, k) {
            None => {
                proof {
                    assert(!mb.dom().contains(k@));
                }
                let d = Difference::OnlyInFirst(k.clone(), v1.deep_copy());
                proof {
                    assert(elem_ok(ma, mb, diff_model(d)));
                }
                out.push(d);
                proof {
                    lemma_diff_push(out0, d, ma, mb, ea@, i as int);
                }
            }
            Some(j) => {
                proof {
                    lemma_entries_view_index(eb@, j as int);
                }
                let v2 = &eb[j].1;
                if value_eq(v1, v2) {
                    proof {
                        assert(!differing(ma, mb, ea@[i as int].0@));
                    }
                } else {
                    match (v1, v2) {
                        (Value::Object(na), Value::Object(nb)) => {
                            let nested = diff_objects(na, nb);
                            proof {
                                lemma_diffs_view(nested@);
                            }
                            if nested.len() > 0 {
                                let d = Difference::NestedDifference(k.clone(), nested);
                                proof {
                                    assert(elem_ok(ma, mb, diff_model(d)));
                                }
                                out.push(d);
                                proof {
                                    lemma_diff_push(out0, d, ma, mb, ea@, i as int);
                                }
                            } else {
                                proof {
                                    assert(diffs_view(nested@) =~= Seq::<DiffDoc>::empty());
                                    lemma_obj_diff_empty(entries_view(na@), entries_view(nb@));
                                    assert(false);
                                }
                            }
                        }
                        _ => {
                            let d = Difference::DifferentValues(
                                k.clone(),
                                v1.deep_copy(),
                                v2.deep_copy(),
                            );
                            proof {
                                assert(elem_ok(ma, mb, diff_model(d)));
                            }
                            out.push(d);
                            proof {
                                lemma_diff_push(out0, d, ma, mb, ea@, i as int);
                            }
                        }
                    }
                }
            }
        }
        i += 1;
    }
    proof {
        assert forall|k: Seq<char>| ma.dom().contains(k) && #[trigger] differing(ma, mb, k)
            implies covers(diffs_view(out@), k) by {
            let j = choose|j: int| 0 <= j < ea@.len() && (#[trigger] ea@[j]).0@ == k;
            assert(key_from_prefix(ea@, ea@.len() as int, k));
        }
        assert forall|l: int| 0 <= l < out@.len()
            implies ma.dom().contains(diff_key(#[trigger] diffs_view(out@)[l])) by {
            assert(key_from_prefix(ea@, ea@.len() as int, diff_key(diffs_view(out@)[l])));
            let j = choose|j: int|
                0 <= j < ea@.len() && (#[trigger] ea@[j]).0@ == diff_key(diffs_view(out@)[l]);
        }
    }
    let mut i: usize = 0;
    while i < eb.len()
        invariant
            i <= eb@.len(),
            diffs_view(out@).len() == out@.len(),
            forall|l: int| 0 <= l < out@.len() ==> elem_ok(ma, mb, #[trigger] diffs_view(out@)[l]),
            forall|l: int| 0 <= l < out@.len() ==> diff_wf(#[trigger] out@[l]),
            forall|l: int| 0 <= l < out@.len()
                ==> ma.dom().contains(diff_key(#[trigger] diffs_view(out@)[l]))
                    || key_from_prefix(eb@, i as int, diff_key(diffs_view(out@)[l])),
            distinct_keys(diffs_view(out@)),
            forall|k: Seq<char>| ma.dom().contains(k) && #[trigger] differing(ma, mb, k)
                ==> covers(diffs_view(out@), k),
            forall|k: Seq<char>| #[trigger] key_from_prefix(eb@, i as int, k)
                && !ma.dom().contains(k) ==> covers(diffs_view(out@), k),
        decreases eb@.len() - i,
    {
        let ghost out0 = out@;
        proof {
            lemma_entries_view_index(eb@, i as int);
            lemma_prefix_step(eb@, i as int);
        }
        let k = &eb[i].0;
        match obj_find(ea, k) {
            Some(_) => {
                proof {
                    assert(ma.dom().contains(eb@[i as int].0@));
                }
            }
            None => {
                proof {
                    assert(!ma.dom().contains(k@));
                }
                let d = Difference::OnlyInSecond(k.clone(), eb[i].1.deep_copy());
                proof {
                    assert(elem_ok(ma, mb, diff_model(d)));
                }
                out.push(d);
                proof {
                    lemma_diff_push_second(out0, d, ma, mb, eb@, i as int);
                }
            }
        }
        i += 1;
    }
    proof {
        lemma_elems_ok_iff(ma, mb, diffs_view(out@));
        assert forall|k: Seq<char>| #[trigger] differing(ma, mb, k)
            implies covers(diffs_view(out@), k) by {
            if ma.dom().contains(k) {
            } else {
                assert(mb.dom().contains(k));
                let j = choose|j: int| 0 <= j < eb@.len() && (#[trigger] eb@[j]).0@ == k;
                assert(key_from_prefix(eb@, eb@.len() as int, k));
            }
        }
        lemma_diffs_wf(out@);
        assert forall|k: Seq<char>| #[trigger] key_from_prefix(ea@, ea@.len() as int, k)
            && differing(ma, mb, k) implies covers(diffs_view(out@), k) by {}
    }
    out
}

/// After appending one more difference whose key is that of entry `i`
/// of the first list, the invariants of the first detection pass hold
/// again with that entry counted.
proof fn lemma_diff_push(
    out0: Seq<Difference>,
    d: Difference,
    ma: Map<Seq<char>, Doc>,
    mb: Map<Seq<char>, Doc>,
    sa: Seq<(String, Value)>,
    i: int,
)
    requires
        unique_keys(sa),
        0 <= i < sa.len(),
        diff_key(diff_model(d)) == sa[i].0@,
        elem_ok(ma, mb, diff_model(d)),
        diff_wf(d),
        diffs_view(out0).len() == out0.len(),
        forall|l: int| 0 <= l < out0.len() ==> elem_ok(ma, mb, #[trigger] diffs_view(out0)[l]),
        forall|l: int| 0 <= l < out0.len() ==> diff_wf(#[trigger] out0[l]),
        forall|l: int| 0 <= l < out0.len()
            ==> key_from_prefix(sa, i, diff_key(#[trigger] diffs_view(out0)[l])),
        distinct_keys(diffs_view(out0)),
        forall|k: Seq<char>| #[trigger] key_from_prefix(sa, i, k) && differing(ma, mb, k)
            ==> covers(diffs_view(out0), k),
    ensures
        diffs_view(out0.push(d)).len() == out0.push(d).len(),
        forall|l: int| 0 <= l < out0.push(d).len()
            ==> elem_ok(ma, mb, #[trigger] diffs_view(out0.push(d))[l]),
        forall|l: int| 0 <= l < out0.push(d).len() ==> diff_wf(#[trigger] out0.push(d)[l]),
        forall|l: int| 0 <= l < out0.push(d).len()
            ==> key_from_prefix(sa, i + 1, diff_key(#[trigger] diffs_view(out0.push(d))[l])),
        distinct_keys(diffs_view(out0.push(d))),
        forall|k: Seq<char>| #[trigger] key_from_prefix(sa, i + 1, k) && differing(ma, mb, k)
            ==> covers(diffs_view(out0.push(d)), k),
{
    let s = out0.push(d);
    let dv = diffs_view(s);
    let dv0 = diffs_view(out0);
    lemma_prefix_step(sa, i);
    assert(s.drop_last() =~= out0);
    assert(s.last() == d);
    assert(dv == dv0.push(diff_model(d)));
    assert(forall|l: int| 0 <= l < dv0.len() ==> #[trigger] dv[l] == dv0[l]);
    assert(dv[out0.len() as int] == diff_model(d));
    assert forall|l1: int, l2: int| 0 <= l1 < l2 < dv.len()
        implies diff_key(#[trigger] dv[l1]) != diff_key(#[trigger] dv[l2]) by {
        if l2 == out0.len() {
            assert(key_from_prefix(sa, i, diff_key(dv0[l1])));
            let j = choose|j: int| 0 <= j < i && (#[trigger] sa[j]).0@ == diff_key(dv0[l1]);
            assert(sa[j].0@ != sa[i].0@);
        }
    }
    assert forall|k: Seq<char>| #[trigger] key_from_prefix(sa, i + 1, k) && differing(ma, mb, k)
        implies covers(dv, k) by {
        if key_from_prefix(sa, i, k) {
            assert(covers(dv0, k));
            let l = choose|l: int| 0 <= l < dv0.len() && diff_key(#[trigger] dv0[l]) == k;
            assert(diff_key(dv[l]) == k);
        } else {
            assert(k == sa[i].0@);
            assert(diff_key(dv[out0.len() as int]) == k);
        }
    }
}

/// After appending a difference for a key only the second list has,
/// the invariants of the second detection pass hold again.
proof fn lemma_diff_push_second(
    out0: Seq<Difference>,
    d: Difference,
    ma: Map<Seq<char>, Doc>,
    mb: Map<Seq<char>, Doc>,
    sb: Seq<(String, Value)>,
    i: int,
)
    requires
        unique_keys(sb),
        0 <= i < sb.len(),
        diff_key(diff_model(d)) == sb[i].0@,
        !ma.dom().contains(sb[i].0@),
        elem_ok(ma, mb, diff_model(d)),
        diff_wf(d),
        diffs_view(out0).len() == out0.len(),
        forall|l: int| 0 <= l < out0.len() ==> elem_ok(ma, mb, #[trigger] diffs_view(out0)[l]),
        forall|l: int| 0 <= l < out0.len() ==> diff_wf(#[trigger] out0[l]),
        forall|l: int| 0 <= l < out0.len()
            ==> ma.dom().contains(diff_key(#[trigger] diffs_view(out0)[l]))
                || key_from_prefix(sb, i, diff_key(diffs_view(out0)[l])),
        distinct_keys(diffs_view(out0)),
        forall|k: Seq<char>| ma.dom().contains(k) && #[trigger] differing(ma, mb, k)
            ==> covers(diffs_view(out0), k),
        forall|k: Seq<char>| #[trigger] key_from_prefix(sb, i, k) && !ma.dom().contains(k)
            ==> covers(diffs_view(out0), k),
    ensures
        diffs_view(out0.push(d)).len() == out0.push(d).len(),
        forall|l: int| 0 <= l < out0.push(d).len()
            ==> elem_ok(ma, mb, #[trigger] diffs_view(out0.push(d))[l]),
        forall|l: int| 0 <= l < out0.push(d).len() ==> diff_wf(#[trigger] out0.push(d)[l]),
        forall|l: int| 0 <= l < out0.push(d).len()
            ==> ma.dom().contains(diff_key(#[trigger] diffs_view(out0.push(d))[l]))
                || key_from_prefix(sb, i + 1, diff_key(diffs_view(out0.push(d))[l])),
        distinct_keys(diffs_view(out0.push(d))),
        forall|k: Seq<char>| ma.dom().contains(k) && #[trigger] differing(ma, mb, k)
            ==> covers(diffs_view(out0.push(d)), k),
        forall|k: Seq<char>| #[trigger] key_from_prefix(sb, i + 1, k) && !ma.dom().contains(k)
            ==> covers(diffs_view(out0.push(d)), k),
{
    let s = out0.push(d);
    let dv = diffs_view(s);
    let dv0 = diffs_view(out0);
    lemma_prefix_step(sb, i);
    assert(s.drop_last() =~= out0);
    assert(s.last() == d);
    assert(dv == dv0.push(diff_model(d)));
    assert(forall|l: int| 0 <= l < dv0.len() ==> #[trigger] dv[l] == dv0[l]);
    assert(dv[out0.len() as int] == diff_model(d));
    assert forall|l1: int, l2: int| 0 <= l1 < l2 < dv.len()
        implies diff_key(#[trigger] dv[l1]) != diff_key(#[trigger] dv[l2]) by {
        if l2 == out0.len() {
            if !ma.dom().contains(diff_key(dv0[l1])) {
                assert(key_from_prefix(sb, i, diff_key(dv0[l1])));
                let j = choose|j: int| 0 <= j < i && (#[trigger] sb[j]).0@ == diff_key(dv0[l1]);
                assert(sb[j].0@ != sb[i].0@);
            }
        }
    }
    assert forall|k: Seq<char>| ma.dom().contains(k) && #[trigger] differing(ma, mb, k)
        implies covers(dv, k) by {
        let l = choose|l: int| 0 <= l < dv0.len() && diff_key(#[trigger] dv0[l]) == k;
        assert(diff_key(dv[l]) == k);
    }
    assert forall|k: Seq<char>| #[trigger] key_from_prefix(sb, i + 1, k) && !ma.dom().contains(k)
        implies covers(dv, k) by {
        if key_from_prefix(sb, i, k) {
            let l = choose|l: int| 0 <= l < dv0.len() && diff_key(#[trigger] dv0[l]) == k;
            assert(diff_key(dv[l]) == k);
        } else {
            assert(k == sb[i].0@);
            assert(diff_key(dv[out0.len() as int]) == k);
        }
    }
}

/// Detects the structural differences between two documents: a
/// key-by-key recursive diff when both are objects, and otherwise
/// nothing when they are equal and a single whole-document replacement
/// under the empty key when they differ.
#[verifier::loop_isolation(false)]
pub fn diff_values(first: &Value, second: &Value) -> (r: Vec<Difference>)
    requires
        first.wf(),
        second.wf(),
    ensures
        is_diff_of(first@, second@, diffs_view(r@)),
        diffs_wf(r@),
        first@ == second@ ==> r@.len() == 0,
{
    match (first, second) {
        (Value::Object(ea), Value::Object(eb)) => {
            let r = diff_objects(ea, eb);
            proof {
                lemma_diffs_view(r@);
                lemma_diffs_wf(r@);
                if first@ == second@ {
                    lemma_diff_self_empty(first@, diffs_view(r@));
                }
            }
            r
        }
        _ => {
            if value_eq(first, second) {
                let out: Vec<Difference> = Vec::new();
                proof {
                    assert(diffs_view(out@) =~= Seq::<DiffDoc>::empty());
                }
                out
            } else {
                let d = Difference::DifferentValues(
                    String::new(),
                    first.deep_copy(),
                    second.deep_copy(),
                );
                let mut out: Vec<Difference> = Vec::new();
                proof {
                    assert(diff_wf(d));
                }
                out.push(d);
                proof {
                    lemma_diffs_view(out@);
                    lemma_diffs_wf(out@);
                    assert(out@[0] == d);
                    assert(diffs_view(out@)[0] == diff_model(d));
                    assert(diffs_view(out@)
                        =~= seq![DiffDoc::DifferentValues(Seq::<char>::empty(), first@, second@)]);
                }
                out
            }
        }
    }
}

} // verus!
