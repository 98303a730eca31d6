use vstd::prelude::*;
use crate::value::{Doc, Value, entries_view, unique_keys, entries_wf, lemma_entries_view_dom,
    lemma_entries_view_index, lemma_entries_wf, obj_find, obj_insert};
use crate::diff::{key_from_prefix, lemma_prefix_step};

verus! {

/// The model of the right-biased recursive merge: when both documents
/// are objects their key sets unite and keys present in both merge
/// recursively; otherwise the second document wins outright.
pub open spec fn merge_doc(a: Doc, b: Doc) -> Doc
    decreases b,
{
    if a is Object && b is Object {
        let ma = a->Object_0;
        let mb = b->Object_0;
        Doc::Object(
            Map::new(
                |k: Seq<char>| ma.dom().contains(k) || mb.dom().contains(k),
                |k: Seq<char>|
                    if ma.dom().contains(k) && mb.dom().contains(k) {
                        merge_doc(ma[k], mb[k])
                    } else if mb.dom().contains(k) {
                        mb[k]
                    } else {
                        ma[k]
                    },
            ),
        )
    } else {
        b
    }
}

/// Merging any object with an empty right object returns it unchanged,
/// and an empty left object lets any right document through unchanged.
pub proof fn lemma_merge_identity(a: Doc, b: Doc)
    ensures
        a is Object ==> merge_doc(a, Doc::Object(Map::empty())) == a,
        merge_doc(Doc::Object(Map::empty()), b) == b,
{
    if a is Object {
        assert(merge_doc(a, Doc::Object(Map::empty()))->Object_0 =~= a->Object_0);
    }
    if b is Object {
        assert(merge_doc(Doc::Object(Map::empty()), b)->Object_0 =~= b->Object_0);
    }
}

/// Right bias: on a key held by both sides whose values are not both
/// objects, the merged document carries the second side's value.
pub proof fn lemma_merge_right_bias(a: Doc, b: Doc, k: Seq<char>)
    requires
        a is Object,
        b is Object,
        a->Object_0.dom().contains(k),
        b->Object_0.dom().contains(k),
        !(a->Object_0[k] is Object && b->Object_0[k] is Object),
    ensures
        merge_doc(a, b)->Object_0.dom().contains(k),
        merge_doc(a, b)->Object_0[k] == b->Object_0[k],
{
    assert(merge_doc(a, b)->Object_0[k] == merge_doc(a->Object_0[k], b->Object_0[k]));
    assert(merge_doc(a->Object_0[k], b->Object_0[k]) == b->Object_0[k]);
}

/// Recursive merge: on a key holding an object on both sides, the
/// children are merged, so every child key of either side survives.
pub proof fn lemma_merge_recursive(a: Doc, b: Doc, k: Seq<char>)
    requires
        a is Object,
        b is Object,
        a->Object_0.dom().contains(k),
        b->Object_0.dom().contains(k),
        a->Object_0[k] is Object,
        b->Object_0[k] is Object,
    ensures
        merge_doc(a, b)->Object_0.dom().contains(k),
        merge_doc(a, b)->Object_0[k] == merge_doc(a->Object_0[k], b->Object_0[k]),
        merge_doc(a, b)->Object_0[k] is Object,
        forall|c: Seq<char>|
            merge_doc(a, b)->Object_0[k]->Object_0.dom().contains(c)
                <==> a->Object_0[k]->Object_0.dom().contains(c)
                    || b->Object_0[k]->Object_0.dom().contains(c),
{
}

/// Recursively merges two documents into a new one: keys of either
/// side survive, keys in both merge recursively, and on any other
/// conflict the second document's branch wins.
#[verifier::loop_isolation(false)]
pub fn merge(a: &Value, b: &Value) -> (r: Value)
    requires
        a.wf(),
        b.wf(),
    ensures
        r.wf(),
        r@ == merge_doc(a@, b@),
    decreases b,
{
    match (a, b) {
        (Value::Object(ea), Value::Object(eb)) => {
            proof {
                lemma_entries_view_dom(ea@);
                lemma_entries_view_dom(eb@);
                lemma_entries_wf(ea@);
                lemma_entries_wf(eb@);
            }
            let ghost ma = entries_view(ea@);
            let ghost mb = entries_view(eb@);
            let ghost mm = merge_doc(a@, b@)->Object_0;
            let mut out: Vec<(String, Value)> = match a.deep_copy() {
                Value::Object(v) => v,
                _ => {
                    proof {
                        assert(false);
                    }
                    Vec::new()
                }
            };
            let mut i: usize = 0;
            while i < eb.len()
                invariant
                    i <= eb@.len(),
                    unique_keys(out@),
                    entries_wf(out@),
                    forall|k: Seq<char>| #[trigger] entries_view(out@).dom().contains(k)
                        <==> ma.dom().contains(k) || key_from_prefix(eb@, i as int, k),
                    forall|k: Seq<char>|
                        ma.dom().contains(k) && !key_from_prefix(eb@, i as int, k)
                            ==> #[trigger] entries_view(out@)[k] == ma[k],
                    forall|k: Seq<char>| #[trigger] key_from_prefix(eb@, i as int, k)
                        ==> entries_view(out@)[k] == mm[k],
                decreases eb@.len() - i,
            {
                let ghost pre = entries_view(out@);
                proof {
                    lemma_entries_view_index(eb@, i as int);
                    lemma_prefix_step(eb@, i as int);
                    assert(mb[eb@[i as int].0@] == eb@[i as int].1@);
                }
                let k = &eb[i].0;
                let v = &eb[i].1;
                let merged = match obj_find(ea, k) {
                    Some(j) => {
                        proof {
                            lemma_entries_view_index(ea@, j as int);
                        }
                        merge(&ea[j].1, v)
                    }
                    None => v.deep_copy(),
                };
                proof {
                    assert(mm[k@] == merged@);
                }
                obj_insert(&mut out, k.clone(), merged);
                i += 1;
                proof {
                    assert forall|k2: Seq<char>| #[trigger] entries_view(out@).dom().contains(k2)
                        implies ma.dom().contains(k2) || key_from_prefix(eb@, i as int, k2) by {
                        if k2 != k@ {
                            assert(pre.dom().contains(k2));
                        }
                    }
                    assert forall|k2: Seq<char>|
                        ma.dom().contains(k2) || key_from_prefix(eb@, i as int, k2)
                        implies entries_view(out@).dom().contains(k2) by {
                        if k2 != k@ {
                            assert(pre.dom().contains(k2));
                        }
                    }
                    assert forall|k2: Seq<char>| #[trigger] key_from_prefix(eb@, i as int, k2)
                        implies entries_view(out@)[k2] == mm[k2] by {
                        if k2 != k@ {
                            assert(key_from_prefix(eb@, i as int - 1, k2));
                            assert(entries_view(out@)[k2] == pre[k2]);
                        }
                    }
                }
            }
            proof {
                assert forall|k: Seq<char>| mb.dom().contains(k)
                    implies #[trigger] key_from_prefix(eb@, eb@.len() as int, k) by {
                    let j = choose|j: int| 0 <= j < eb@.len() && (#[trigger] eb@[j]).0@ == k;
                }
                assert forall|k: Seq<char>| #[trigger] key_from_prefix(eb@, eb@.len() as int, k)
                    implies mb.dom().contains(k) by {
                    let j = choose|j: int| 0 <= j < eb@.len() && (#[trigger] eb@[j]).0@ == k;
                }
                assert forall|k: Seq<char>| #[trigger] entries_view(out@).dom().contains(k)
                    implies entries_view(out@)[k] == mm[k] by {
                    if !key_from_prefix(eb@, eb@.len() as int, k) {
                        assert(ma.dom().contains(k));
                        assert(mm[k] == ma[k]);
                    }
                }
                assert forall|k: Seq<char>| #[trigger] mm.dom().contains(k)
                    implies entries_view(out@).dom().contains(k) by {
                    assert(ma.dom().contains(k) || mb.dom().contains(k));
                }
                assert(entries_view(out@) =~= mm);
            }
            Value::Object(out)
        }
        _ => {
            proof {
                assert(!(a@ is Object && b@ is Object));
            }
            b.deep_copy()
        }
    }
}

} // verus!
