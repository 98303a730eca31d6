use vstd::prelude::*;
use crate::codec::num_text_ok;

verus! {

/// The mathematical model of a document: a JSON-like tree whose objects
/// are finite maps from key to child document.  Insertion order of
/// object entries is not part of the model.
pub ghost enum Doc {
    Null,
    Bool(bool),
    Number(int),
    BigNumber(Seq<char>),
    Text(Seq<char>),
    Array(Seq<Doc>),
    Object(Map<Seq<char>, Doc>),
}

/// A JSON-like document value.  Numbers in the signed 64-bit range are
/// held as integers; any other JSON number is held apart, as its
/// decimal text.  Object entries are a list of key/value pairs whose
/// keys are pairwise distinct in a well-formed value.
#[derive(Debug, PartialEq)]
pub enum Value {
    Null,
    Bool(bool),
    Number(i64),
    BigNumber(String),
    Text(String),
    Array(Vec<Value>),
    Object(Vec<(String, Value)>),
}

/// The model of one document value.
pub open spec fn val_model(v: Value) -> Doc
    decreases v,
{
    match v {
        Value::Null => Doc::Null,
        Value::Bool(b) => Doc::Bool(b),
        Value::Number(n) => Doc::Number(n as int),
        Value::BigNumber(s) => Doc::BigNumber(s@),
        Value::Text(s) => Doc::Text(s@),
        Value::Array(items) => Doc::Array(items_view(items@)),
        Value::Object(entries) => Doc::Object(entries_view(entries@)),
    }
}

/// The model of a list of array elements, element by element.
pub open spec fn items_view(items: Seq<Value>) -> Seq<Doc>
    decreases items,
{
    if items.len() == 0 {
        Seq::empty()
    } else {
        items_view(items.drop_last()).push(val_model(items.last()))
    }
}

/// The model of a list of object entries: the finite map they describe.
/// A later entry for a key shadows an earlier one.
pub open spec fn entries_view(entries: Seq<(String, Value)>) -> Map<Seq<char>, Doc>
    decreases entries,
{
    if entries.len() == 0 {
        Map::empty()
    } else {
        entries_view(entries.drop_last()).insert(entries.last().0@, val_model(entries.last().1))
    }
}

impl View for Value {
    type V = Doc;

    open spec fn view(&self) -> Doc {
        val_model(*self)
    }
}

/// Pairwise-distinct keys in a list of object entries.
pub open spec fn unique_keys(entries: Seq<(String, Value)>) -> bool {
    forall|i: int, j: int| 0 <= i < j < entries.len() ==> entries[i].0@ != entries[j].0@
}

/// Well-formedness of every element of an array.
pub open spec fn items_wf(items: Seq<Value>) -> bool
    decreases items,
{
    items.len() == 0 || (items.last().wf() && items_wf(items.drop_last()))
}

/// Well-formedness of every value of an entry list.
pub open spec fn entries_wf(entries: Seq<(String, Value)>) -> bool
    decreases entries,
{
    entries.len() == 0 || (entries.last().1.wf() && entries_wf(entries.drop_last()))
}

impl Value {
    /// A value is well formed when every object in it has pairwise-distinct
    /// keys, so that its entry list faithfully represents a map, and
    /// every number held as text is one the JSON boundary rebuilds
    /// exactly.
    pub open spec fn wf(self) -> bool
        decreases self,
    {
        match self {
            Value::BigNumber(s) => num_text_ok(s@),
            Value::Array(items) => items_wf(items@),
            Value::Object(entries) => unique_keys(entries@) && entries_wf(entries@),
            _ => true,
        }
    }
}

pub proof fn lemma_items_view(items: Seq<Value>)
    ensures
        items_view(items).len() == items.len(),
        forall|i: int| 0 <= i < items.len() ==> #[trigger] items_view(items)[i] == items[i]@,
    decreases items,
{
    if items.len() > 0 {
        lemma_items_view(items.drop_last());
        assert forall|i: int| 0 <= i < items.len()
            implies #[trigger] items_view(items)[i] == items[i]@ by {
            if i < items.len() - 1 {
                assert(items.drop_last()[i] == items[i]);
            }
        }
    }
}

pub proof fn lemma_items_wf(items: Seq<Value>)
    ensures
        items_wf(items) <==> (forall|i: int| 0 <= i < items.len() ==> (#[trigger] items[i]).wf()),
    decreases items,
{
    if items.len() > 0 {
        lemma_items_wf(items.drop_last());
        assert forall|i: int| 0 <= i < items.drop_last().len()
            implies items.drop_last()[i] == items[i] by {}
    }
}

pub proof fn lemma_entries_wf(entries: Seq<(String, Value)>)
    ensures
        entries_wf(entries) <==> (forall|i: int|
            0 <= i < entries.len() ==> (#[trigger] entries[i]).1.wf()),
    decreases entries,
{
    if entries.len() > 0 {
        lemma_entries_wf(entries.drop_last());
        assert forall|i: int| 0 <= i < entries.drop_last().len()
            implies entries.drop_last()[i] == entries[i] by {}
    }
}

/// The domain of an entry list's map is exactly the set of its keys,
/// and it is finite.
pub proof fn lemma_entries_view_dom(entries: Seq<(String, Value)>)
    ensures
        entries_view(entries).dom().finite(),
        forall|k: Seq<char>| entries_view(entries).dom().contains(k)
            <==> (exists|i: int| 0 <= i < entries.len() && (#[trigger] entries[i]).0@ == k),
    decreases entries,
{
    if entries.len() > 0 {
        lemma_entries_view_dom(entries.drop_last());
        assert forall|k: Seq<char>| entries_view(entries).dom().contains(k)
            implies (exists|i: int| 0 <= i < entries.len() && (#[trigger] entries[i]).0@ == k) by {
            if k == entries.last().0@ {
                assert(entries[entries.len() - 1].0@ == k);
            } else {
                let i = choose|i: int|
                    0 <= i < entries.drop_last().len() && (#[trigger] entries.drop_last()[i]).0@ == k;
                assert(entries[i].0@ == k);
            }
        }
        assert forall|k: Seq<char>|
            (exists|i: int| 0 <= i < entries.len() && (#[trigger] entries[i]).0@ == k)
            implies entries_view(entries).dom().contains(k) by {
            let i = choose|i: int| 0 <= i < entries.len() && (#[trigger] entries[i]).0@ == k;
            if i < entries.len() - 1 {
                assert(entries.drop_last()[i].0@ == k);
            }
        }
    }
}

/// With distinct keys, each entry's key maps to that entry's value.
pub proof fn lemma_entries_view_index(entries: Seq<(String, Value)>, i: int)
    requires
        unique_keys(entries),
        0 <= i < entries.len(),
    ensures
        entries_view(entries).dom().contains(entries[i].0@),
        entries_view(entries)[entries[i].0@] == entries[i].1@,
    decreases entries,
{
    if i == entries.len() - 1 {
    } else {
        assert(unique_keys(entries.drop_last()));
        assert(entries.drop_last()[i] == entries[i]);
        lemma_entries_view_index(entries.drop_last(), i);
        assert(entries[i].0@ != entries.last().0@);
    }
}

/// With distinct keys, the map of an entry list has as many keys as the
/// list has entries.
pub proof fn lemma_entries_view_card(entries: Seq<(String, Value)>)
    requires
        unique_keys(entries),
    ensures
        entries_view(entries).dom().len() == entries.len(),
    decreases entries,
{
    lemma_entries_view_dom(entries);
    if entries.len() > 0 {
        assert(unique_keys(entries.drop_last()));
        lemma_entries_view_card(entries.drop_last());
        lemma_entries_view_dom(entries.drop_last());
        let k = entries.last().0@;
        assert(!entries_view(entries.drop_last()).dom().contains(k)) by {
            if entries_view(entries.drop_last()).dom().contains(k) {
                let i = choose|i: int|
                    0 <= i < entries.drop_last().len()
                        && (#[trigger] entries.drop_last()[i]).0@ == k;
                assert(entries[i].0@ == entries[entries.len() - 1].0@);
            }
        }
        assert(entries_view(entries).dom()
            =~= entries_view(entries.drop_last()).dom().insert(k));
    }
}

/// Removing the entry at index `i` removes exactly its key from the map.
pub proof fn lemma_entries_view_remove(entries: Seq<(String, Value)>, i: int)
    requires
        unique_keys(entries),
        0 <= i < entries.len(),
    ensures
        entries_view(entries.remove(i)) == entries_view(entries).remove(entries[i].0@),
        unique_keys(entries.remove(i)),
        entries_wf(entries) ==> entries_wf(entries.remove(i)),
    decreases entries,
{
    let s = entries.remove(i);
    let k = entries[i].0@;
    assert(unique_keys(s)) by {
        assert forall|p: int, q: int| 0 <= p < q < s.len() implies s[p].0@ != s[q].0@ by {
            if q < i {
                assert(s[p] == entries[p] && s[q] == entries[q]);
            } else if p < i {
                assert(s[p] == entries[p] && s[q] == entries[q + 1]);
            } else {
                assert(s[p] == entries[p + 1] && s[q] == entries[q + 1]);
            }
        }
    }
    if entries_wf(entries) {
        lemma_entries_wf(entries);
        lemma_entries_wf(s);
        assert forall|p: int| 0 <= p < s.len() implies (#[trigger] s[p]).1.wf() by {
            if p < i {
                assert(s[p] == entries[p]);
            } else {
                assert(s[p] == entries[p + 1]);
            }
        }
    }
    if i == entries.len() - 1 {
        assert(s =~= entries.drop_last());
        lemma_entries_view_dom(s);
        assert(!entries_view(s).dom().contains(k)) by {
            if entries_view(s).dom().contains(k) {
                let j = choose|j: int| 0 <= j < s.len() && (#[trigger] s[j]).0@ == k;
                assert(entries[j].0@ == entries[entries.len() - 1].0@);
            }
        }
        assert(entries_view(entries.remove(i)) =~= entries_view(entries).remove(k));
    } else {
        assert(unique_keys(entries.drop_last()));
        assert(entries.drop_last()[i] == entries[i]);
        lemma_entries_view_remove(entries.drop_last(), i);
        assert(s.drop_last() =~= entries.drop_last().remove(i));
        assert(s.last() == entries.last());
        assert(entries[i].0@ != entries.last().0@);
        assert(entries_view(s)
            == entries_view(entries.drop_last()).remove(k).insert(entries.last().0@, entries.last().1@));
        assert(entries_view(entries.drop_last()).remove(k).insert(entries.last().0@, entries.last().1@)
            =~= entries_view(entries).remove(k));
    }
}

/// Appending an entry for a fresh key inserts exactly that binding.
pub proof fn lemma_entries_view_push(entries: Seq<(String, Value)>, k: String, v: Value)
    requires
        forall|i: int| 0 <= i < entries.len() ==> (#[trigger] entries[i]).0@ != k@,
    ensures
        entries_view(entries.push((k, v))) == entries_view(entries).insert(k@, v@),
        unique_keys(entries) ==> unique_keys(entries.push((k, v))),
        entries_wf(entries) && v.wf() ==> entries_wf(entries.push((k, v))),
{
    let s = entries.push((k, v));
    assert(s.drop_last() =~= entries);
    assert(s.last() == (k, v));
    if unique_keys(entries) {
        assert forall|p: int, q: int| 0 <= p < q < s.len() implies s[p].0@ != s[q].0@ by {
            if q < entries.len() {
                assert(s[p] == entries[p] && s[q] == entries[q]);
            } else {
                assert(s[p] == entries[p]);
            }
        }
    }
    if entries_wf(entries) && v.wf() {
        lemma_entries_wf(entries);
        lemma_entries_wf(s);
        assert forall|p: int| 0 <= p < s.len() implies (#[trigger] s[p]).1.wf() by {
            if p < entries.len() {
                assert(s[p] == entries[p]);
            }
        }
    }
}

/// Two entry lists with pointwise-equal key and value models describe
/// the same map.
pub proof fn lemma_entries_view_congruent(s1: Seq<(String, Value)>, s2: Seq<(String, Value)>)
    requires
        s1.len() == s2.len(),
        forall|i: int| 0 <= i < s1.len()
            ==> (#[trigger] s1[i]).0@ == s2[i].0@ && s1[i].1@ == s2[i].1@,
    ensures
        entries_view(s1) == entries_view(s2),
    decreases s1,
{
    if s1.len() > 0 {
        assert forall|i: int| 0 <= i < s1.drop_last().len()
            implies (#[trigger] s1.drop_last()[i]).0@ == s2.drop_last()[i].0@
                && s1.drop_last()[i].1@ == s2.drop_last()[i].1@ by {
            assert(s1.drop_last()[i] == s1[i] && s2.drop_last()[i] == s2[i]);
        }
        lemma_entries_view_congruent(s1.drop_last(), s2.drop_last());
        assert(s1[s1.len() - 1].0@ == s2[s1.len() - 1].0@ && s1[s1.len() - 1].1@ == s2[s1.len() - 1].1@);
    }
}

/// Finds the index of the entry holding `key`, if any.
pub fn obj_find(entries: &Vec<(String, Value)>, key: &String) -> (r: Option<usize>)
    ensures
        match r {
            Some(i) => i < entries@.len() && entries@[i as int].0@ == key@,
            None => forall|i: int| 0 <= i < entries@.len() ==> (#[trigger] entries@[i]).0@ != key@,
        },
{
    let mut i: usize = 0;
    while i < entries.len()
        invariant
            i <= entries@.len(),
            forall|j: int| 0 <= j < i ==> (#[trigger] entries@[j]).0@ != key@,
        decreases entries@.len() - i,
    {
        if entries[i].0 == *key {
            return Some(i);
        }
        i += 1;
    }
    None
}

/// Looks a key up in an entry list.
pub fn obj_get<'a>(entries: &'a Vec<(String, Value)>, key: &String) -> (r: Option<&'a Value>)
    requires
        unique_keys(entries@),
    ensures
        match r {
            Some(v) => entries_view(entries@).dom().contains(key@)
                && v@ == entries_view(entries@)[key@]
                && (entries_wf(entries@) ==> v.wf()),
            None => !entries_view(entries@).dom().contains(key@),
        },
{
    proof {
        lemma_entries_view_dom(entries@);
        lemma_entries_wf(entries@);
    }
    match obj_find(entries, key) {
        Some(i) => {
            proof {
                lemma_entries_view_index(entries@, i as int);
            }
            Some(&entries[i].1)
        }
        None => None,
    }
}

/// A subset of a finite set with the same size is the set itself.
pub proof fn lemma_subset_same_len_equal<A>(s1: Set<A>, s2: Set<A>)
    requires
        s2.finite(),
        s1.subset_of(s2),
        s1.len() == s2.len(),
    ensures
        s1 == s2,
{
    if exists|k: A| s2.contains(k) && !s1.contains(k) {
        let k = choose|k: A| s2.contains(k) && !s1.contains(k);
        assert(s1.subset_of(s2.remove(k)));
        vstd::set_lib::lemma_len_subset(s1, s2.remove(k));
    }
    assert(s1 =~= s2);
}

/// Structural equality of two well-formed values: equality of their models.
#[verifier::loop_isolation(false)]
pub fn value_eq(a: &Value, b: &Value) -> (r: bool)
    requires
        a.wf(),
        b.wf(),
    ensures
        r == (a@ == b@),
    decreases a,
{
    match (a, b) {
        (Value::Null, Value::Null) => true,
        (Value::Bool(x), Value::Bool(y)) => *x == *y,
        (Value::Number(x), Value::Number(y)) => *x == *y,
        (Value::BigNumber(x), Value::BigNumber(y)) => *x == *y,
        (Value::Text(x), Value::Text(y)) => *x == *y,
        (Value::Array(x), Value::Array(y)) => {
            proof {
                lemma_items_view(x@);
                lemma_items_view(y@);
                lemma_items_wf(x@);
                lemma_items_wf(y@);
                assert(a@ == Doc::Array(items_view(x@)));
                assert(b@ == Doc::Array(items_view(y@)));
            }
            if x.len() != y.len() {
                proof {
                    assert(items_view(x@).len() != items_view(y@).len());
                    assert(a@ != b@);
                }
                return false;
            }
            let mut i: usize = 0;
            while i < x.len()
                invariant
                    i <= x@.len(),
                    forall|j: int| 0 <= j < i ==> #[trigger] items_view(x@)[j] == items_view(y@)[j],
                decreases x@.len() - i,
            {
                if !value_eq(&x[i], &y[i]) {
                    proof {
                        assert(items_view(x@)[i as int] == x@[i as int]@);
                        assert(items_view(y@)[i as int] == y@[i as int]@);
                        assert(a@ != b@);
                    }
                    return false;
                }
                i += 1;
            }
            proof {
                assert(items_view(x@) =~= items_view(y@));
            }
            true
        }
        (Value::Object(ex), Value::Object(ey)) => {
            proof {
                lemma_entries_view_dom(ex@);
                lemma_entries_view_dom(ey@);
                lemma_entries_view_card(ex@);
                lemma_entries_view_card(ey@);
                lemma_entries_wf(ex@);
                lemma_entries_wf(ey@);
            }
            if ex.len() != ey.len() {
                return false;
            }
            let mut i: usize = 0;
            while i < ex.len()
                invariant
                    i <= ex@.len(),
                    forall|j: int| 0 <= j < i
                        ==> entries_view(ey@).dom().contains(#[trigger] ex@[j].0@)
                            && entries_view(ey@)[ex@[j].0@] == entries_view(ex@)[ex@[j].0@],
                decreases ex@.len() - i,
            {
                proof {
                    lemma_entries_view_index(ex@, i as int);
                }
                let k = &ex[i].0;
                match obj_get(ey, k) {
                    Some(w) => {
                        if !value_eq(&ex[i].1, w) {
                            return false;
                        }
                    }
                    None => {
                        return false;
                    }
                }
                i += 1;
            }
            proof {
                assert forall|k: Seq<char>| entries_view(ex@).dom().contains(k)
                    implies entries_view(ey@).dom().contains(k) by {
                    let j = choose|j: int| 0 <= j < ex@.len() && (#[trigger] ex@[j]).0@ == k;
                    assert(entries_view(ey@).dom().contains(ex@[j].0@));
                }
                lemma_subset_same_len_equal(entries_view(ex@).dom(), entries_view(ey@).dom());
                assert forall|k: Seq<char>| entries_view(ex@).dom().contains(k)
                    implies entries_view(ex@)[k] == entries_view(ey@)[k] by {
                    let j = choose|j: int| 0 <= j < ex@.len() && (#[trigger] ex@[j]).0@ == k;
                    assert(entries_view(ey@)[ex@[j].0@] == entries_view(ex@)[ex@[j].0@]);
                }
                assert(entries_view(ex@) =~= entries_view(ey@));
                assert(a@ == b@);
            }
            true
        }
        _ => false,
    }
}

/// Inserts or overwrites a key in an entry list.
pub fn obj_insert(entries: &mut Vec<(String, Value)>, key: String, v: Value)
    requires
        unique_keys(old(entries)@),
        entries_wf(old(entries)@),
        v.wf(),
    ensures
        unique_keys(final(entries)@),
        entries_wf(final(entries)@),
        entries_view(final(entries)@) == entries_view(old(entries)@).insert(key@, v@),
{
    match obj_find(entries, &key) {
        Some(i) => {
            proof {
                lemma_entries_view_remove(entries@, i as int);
                lemma_entries_view_dom(entries@.remove(i as int));
                assert forall|j: int| 0 <= j < entries@.remove(i as int).len()
                    implies (#[trigger] entries@.remove(i as int)[j]).0@ != key@ by {
                    if j < i {
                        assert(entries@.remove(i as int)[j] == entries@[j]);
                    } else {
                        assert(entries@.remove(i as int)[j] == entries@[j + 1]);
                    }
                }
                lemma_entries_view_push(entries@.remove(i as int), key, v);
                assert(entries_view(entries@).remove(key@).insert(key@, v@)
                    =~= entries_view(entries@).insert(key@, v@));
            }
            let ghost old_entries = entries@;
            entries.remove(i);
            entries.push((key, v));
            proof {
                assert(entries@ == old_entries.remove(i as int).push((key, v)));
            }
        }
        None => {
            proof {
                lemma_entries_view_push(entries@, key, v);
            }
            entries.push((key, v));
        }
    }
}

/// Removes a key from an entry list, if present.
pub fn obj_remove(entries: &mut Vec<(String, Value)>, key: &String)
    requires
        unique_keys(old(entries)@),
        entries_wf(old(entries)@),
    ensures
        unique_keys(final(entries)@),
        entries_wf(final(entries)@),
        entries_view(final(entries)@) == entries_view(old(entries)@).remove(key@),
{
    match obj_find(entries, key) {
        Some(i) => {
            proof {
                lemma_entries_view_remove(entries@, i as int);
            }
            entries.remove(i);
        }
        None => {
            proof {
                lemma_entries_view_dom(entries@);
                assert(!entries_view(entries@).dom().contains(key@));
                assert(entries_view(entries@) =~= entries_view(entries@).remove(key@));
            }
        }
    }
}

/// The text of a document that is a string, and the empty text otherwise.
pub open spec fn text_or_empty(d: Doc) -> Seq<char> {
    if d is Text {
        d->Text_0
    } else {
        Seq::empty()
    }
}

/// The strings an array document lists, element by element; any
/// element that is not a string reads as the empty string, and a
/// document that is not an array lists nothing.
pub open spec fn string_items_of(d: Doc) -> Seq<Seq<char>> {
    if d is Array {
        d->Array_0.map_values(|x: Doc| text_or_empty(x))
    } else {
        Seq::empty()
    }
}

/// Collects the strings an array document lists.
#[verifier::loop_isolation(false)]
pub fn string_values(v: &Value) -> (r: Vec<String>)
    ensures
        r@.map_values(|s: String| s@) == string_items_of(v@),
{
    match v {
        Value::Array(items) => {
            proof {
                lemma_items_view(items@);
            }
            let mut out: Vec<String> = Vec::new();
            let mut i: usize = 0;
            while i < items.len()
                invariant
                    i <= items@.len(),
                    out@.len() == i,
                    forall|j: int| 0 <= j < i
                        ==> (#[trigger] out@[j])@ == text_or_empty(items_view(items@)[j]),
                decreases items@.len() - i,
            {
                match &items[i] {
                    Value::Text(s) => out.push(s.clone()),
                    _ => out.push(String::new()),
                }
                i += 1;
            }
            proof {
                assert(out@.map_values(|s: String| s@) =~= string_items_of(v@));
            }
            out
        }
        _ => {
            let out: Vec<String> = Vec::new();
            proof {
                assert(out@.map_values(|s: String| s@) =~= string_items_of(v@));
            }
            out
        }
    }
}

impl Value {
    /// An independent deep copy of a value.
    #[verifier::loop_isolation(false)]
    pub fn deep_copy(&self) -> (r: Value)
        ensures
            r@ == self@,
            self.wf() ==> r.wf(),
        decreases self,
    {
        match self {
            Value::Null => Value::Null,
            Value::Bool(b) => Value::Bool(*b),
            Value::Number(n) => Value::Number(*n),
            Value::BigNumber(s) => Value::BigNumber(s.clone()),
            Value::Text(s) => Value::Text(s.clone()),
            Value::Array(items) => {
                let mut out: Vec<Value> = Vec::new();
                let mut i: usize = 0;
                while i < items.len()
                    invariant
                        i <= items@.len(),
                        out@.len() == i,
                        forall|j: int| 0 <= j < i
                            ==> (#[trigger] out@[j])@ == items@[j]@
                                && (items@[j].wf() ==> out@[j].wf()),
                    decreases items@.len() - i,
                {
                    let c = items[i].deep_copy();
                    out.push(c);
                    i += 1;
                }
                proof {
                    lemma_items_view(out@);
                    lemma_items_view(items@);
                    assert(items_view(out@) =~= items_view(items@));
                    lemma_items_wf(out@);
                    lemma_items_wf(items@);
                }
                Value::Array(out)
            }
            Value::Object(entries) => {
                let mut out: Vec<(String, Value)> = Vec::new();
                let mut i: usize = 0;
                while i < entries.len()
                    invariant
                        i <= entries@.len(),
                        out@.len() == i,
                        forall|j: int| 0 <= j < i
                            ==> (#[trigger] out@[j]).0@ == entries@[j].0@
                                && out@[j].1@ == entries@[j].1@
                                && (entries@[j].1.wf() ==> out@[j].1.wf()),
                    decreases entries@.len() - i,
                {
                    let k = entries[i].0.clone();
                    let c = entries[i].1.deep_copy();
                    out.push((k, c));
                    i += 1;
                }
                proof {
                    lemma_entries_view_congruent(out@, entries@);
                    lemma_entries_wf(out@);
                    lemma_entries_wf(entries@);
                    if unique_keys(entries@) {
                        assert forall|p: int, q: int| 0 <= p < q < out@.len()
                            implies out@[p].0@ != out@[q].0@ by {
                            assert(out@[p].0@ == entries@[p].0@ && out@[q].0@ == entries@[q].0@);
                        }
                    }
                }
                Value::Object(out)
            }
        }
    }
}

} // verus!
