//! JSON documents as the settings files hold them.
//!
//! An object is a list of entries; in a parsed document their keys are
//! distinct and in key order. A number is held as the text `serde_json`
//! prints for it, which need not be the text of the document.
use vstd::prelude::*;
use crate::text::chars_of;

verus! {

/// A JSON value.
#[derive(Debug, PartialEq)]
pub enum JsonValue {
    Null,
    Bool(bool),
    Number(String),
    Str(String),
    Array(Vec<JsonValue>),
    Object(Vec<(String, JsonValue)>),
}

/// The abstract form of a JSON value.
pub enum JVal {
    Null,
    Bool(bool),
    Number(Seq<char>),
    Str(Seq<char>),
    Array(Seq<JVal>),
    Object(Seq<(Seq<char>, JVal)>),
}

/// The abstract form of a JSON value.
pub open spec fn json_view(v: JsonValue) -> JVal
    decreases v, 0int,
{
    match v {
        JsonValue::Null => JVal::Null,
        JsonValue::Bool(b) => JVal::Bool(b),
        JsonValue::Number(t) => JVal::Number(t@),
        JsonValue::Str(s) => JVal::Str(s@),
        JsonValue::Array(items) => JVal::Array(items_view(items@)),
        JsonValue::Object(entries) => JVal::Object(entries_view(entries@)),
    }
}

/// The abstract forms of the items of an array.
pub open spec fn items_view(items: Seq<JsonValue>) -> Seq<JVal>
    decreases items, 1int,
{
    if items.len() == 0 {
        Seq::empty()
    } else {
        items_view(items.drop_last()).push(json_view(items.last()))
    }
}

/// The abstract forms of the entries of an object.
pub open spec fn entries_view(entries: Seq<(String, JsonValue)>) -> Seq<(Seq<char>, JVal)>
    decreases entries, 1int,
{
    if entries.len() == 0 {
        Seq::empty()
    } else {
        entries_view(entries.drop_last()).push((entries.last().0@, json_view(entries.last().1)))
    }
}

impl View for JsonValue {
    type V = JVal;

    open spec fn view(&self) -> JVal {
        json_view(*self)
    }
}

/// The view of the entries of an object lines up with the entries.
pub proof fn lemma_entries_view(entries: Seq<(String, JsonValue)>)
    ensures
        entries_view(entries).len() == entries.len(),
        forall|i: int| 0 <= i < entries.len() ==> #[trigger] entries_view(entries)[i] == (
            entries[i].0@,
            json_view(entries[i].1),
        ),
    decreases entries.len(),
{
    if entries.len() > 0 {
        lemma_entries_view(entries.drop_last());
    }
}

/// The view of the items of an array lines up with the items.
pub proof fn lemma_items_view(items: Seq<JsonValue>)
    ensures
        items_view(items).len() == items.len(),
        forall|i: int| 0 <= i < items.len() ==> #[trigger] items_view(items)[i] == json_view(items[i]),
    decreases items.len(),
{
    if items.len() > 0 {
        lemma_items_view(items.drop_last());
    }
}

/// Whether `i` is the first position of an entry with key `k`.
pub open spec fn is_first_key(entries: Seq<(Seq<char>, JVal)>, k: Seq<char>, i: int) -> bool {
    &&& 0 <= i < entries.len()
    &&& entries[i].0 == k
    &&& forall|j: int| 0 <= j < i ==> entries[j].0 != k
}

/// The position of the entry with key `k`, or -1 when there is none.
pub open spec fn key_position(entries: Seq<(Seq<char>, JVal)>, k: Seq<char>) -> int {
    if exists|i: int| is_first_key(entries, k, i) {
        choose|i: int| is_first_key(entries, k, i)
    } else {
        -1
    }
}

/// The entries hold key `k` somewhere.
pub open spec fn has_key(entries: Seq<(Seq<char>, JVal)>, k: Seq<char>) -> bool {
    exists|i: int| 0 <= i < entries.len() && entries[i].0 == k
}

/// `key_position` finds the first entry with the key, and finds none only
/// when no entry has it.
pub proof fn lemma_key_position(entries: Seq<(Seq<char>, JVal)>, k: Seq<char>)
    ensures
        has_key(entries, k) <==> key_position(entries, k) >= 0,
        key_position(entries, k) >= 0 ==> is_first_key(entries, k, key_position(entries, k)),
        key_position(entries, k) >= -1,
    decreases entries.len(),
{
    if exists|i: int| is_first_key(entries, k, i) {
        let i = choose|i: int| is_first_key(entries, k, i);
        assert(is_first_key(entries, k, i));
    } else if has_key(entries, k) {
        let n = entries.len() - 1;
        let front = entries.drop_last();
        lemma_key_position(front, k);
        if has_key(front, k) {
            let i = key_position(front, k);
            assert forall|j: int| 0 <= j <= i implies entries[j] == front[j] by {}
            assert(is_first_key(entries, k, i));
        } else {
            assert forall|j: int| 0 <= j < n implies entries[j].0 != k by {
                if entries[j].0 == k {
                    assert(front[j].0 == k);
                }
            }
            let j = choose|j: int| 0 <= j < entries.len() && entries[j].0 == k;
            assert(j == n);
            assert(is_first_key(entries, k, n));
        }
    }
}

/// A first position is the one `key_position` gives.
pub proof fn lemma_first_key_unique(entries: Seq<(Seq<char>, JVal)>, k: Seq<char>, i: int)
    requires
        is_first_key(entries, k, i),
    ensures
        key_position(entries, k) == i,
{
    let c = choose|c: int| is_first_key(entries, k, c);
    assert(is_first_key(entries, k, c));
    if c < i {
        assert(entries[c].0 != k);
    } else if c > i {
        assert(entries[i].0 != k);
    }
}

/// The value of the entry with key `k`, if there is one.
pub open spec fn entry_get(entries: Seq<(Seq<char>, JVal)>, k: Seq<char>) -> Option<JVal> {
    let i = key_position(entries, k);
    if i >= 0 {
        Some(entries[i].1)
    } else {
        None
    }
}

/// The value at key `k` of an object; none for a missing key or a value that
/// is not an object.
pub open spec fn object_get(v: JVal, k: Seq<char>) -> Option<JVal> {
    match v {
        JVal::Object(entries) => entry_get(entries, k),
        _ => None,
    }
}

/// The position of the entry with key `key`.
pub fn find_entry(entries: &Vec<(String, JsonValue)>, key: &String) -> (pos: Option<usize>)
    ensures
        match pos {
            Some(i) => i == key_position(entries_view(entries@), key@) && i < entries@.len(),
            None => key_position(entries_view(entries@), key@) == -1,
        },
{
    let ghost ev = entries_view(entries@);
    proof {
        lemma_entries_view(entries@);
    }
    for i in 0..entries.len()
        invariant
            ev == entries_view(entries@),
            ev.len() == entries@.len(),
            forall|j: int| 0 <= j < i ==> ev[j].0 != key@,
    {
        proof {
            lemma_entries_view(entries@);
        }
        assert(ev[i as int].0 == entries@[i as int].0@);
        if entries[i].0 == *key {
            proof {
                assert(is_first_key(ev, key@, i as int));
                lemma_first_key_unique(ev, key@, i as int);
            }
            return Some(i);
        }
    }
    proof {
        lemma_key_position(ev, key@);
    }
    None
}

/// The value at key `key` of an object.
pub fn get<'a>(v: &'a JsonValue, key: &str) -> (found: Option<&'a JsonValue>)
    ensures
        match found {
            Some(x) => object_get(v@, key@) == Some(x@),
            None => object_get(v@, key@) is None,
        },
{
    match v {
        JsonValue::Object(entries) => {
            let k = String::from_str(key);
            proof {
                lemma_entries_view(entries@);
            }
            match find_entry(entries, &k) {
                Some(i) => Some(&entries[i].1),
                None => None,
            }
        },
        _ => None,
    }
}

/// Whether key `a` sorts before key `b`: character by character by code
/// point, a proper prefix first. For text this is the byte order of its
/// UTF-8 encoding, which is the order `String` keys have.
pub open spec fn key_less(a: Seq<char>, b: Seq<char>) -> bool
    decreases a.len(),
{
    if a.len() == 0 {
        b.len() > 0
    } else if b.len() == 0 {
        false
    } else if a[0] != b[0] {
        a[0] < b[0]
    } else {
        key_less(a.drop_first(), b.drop_first())
    }
}

/// `key_less` is a strict total order.
pub proof fn lemma_key_less_order(a: Seq<char>, b: Seq<char>, c: Seq<char>)
    ensures
        !key_less(a, a),
        key_less(a, b) ==> !key_less(b, a),
        key_less(a, b) && key_less(b, c) ==> key_less(a, c),
        a != b ==> key_less(a, b) || key_less(b, a),
    decreases a.len(),
{
    if a.len() == 0 {
        if b.len() == 0 {
            assert(a =~= b);
        }
    } else {
        let a1 = a.drop_first();
        let b1 = if b.len() > 0 { b.drop_first() } else { a1 };
        let c1 = if c.len() > 0 { c.drop_first() } else { a1 };
        lemma_key_less_order(a1, b1, c1);
        if b.len() > 0 && a[0] == b[0] && a1 == b1 {
            assert(a =~= seq![a[0]] + a1);
            assert(b =~= seq![b[0]] + b1);
        }
    }
}

/// The keys of the entries rise strictly, as in a map kept sorted by key.
pub open spec fn keys_sorted(entries: Seq<(Seq<char>, JVal)>) -> bool {
    forall|i: int, j: int| 0 <= i < j < entries.len() ==> key_less(entries[i].0, entries[j].0)
}

/// Sorted keys are distinct.
pub proof fn lemma_sorted_keys_unique(entries: Seq<(Seq<char>, JVal)>)
    requires
        keys_sorted(entries),
    ensures
        keys_unique(entries),
{
    assert forall|i: int, j: int| 0 <= i < j < entries.len() implies entries[i].0 != entries[j].0 by {
        lemma_key_less_order(entries[i].0, entries[j].0, entries[j].0);
    }
}

/// Whether `i` is where key `k` goes among the entries: before the first
/// entry whose key sorts after `k`, or at the end.
pub open spec fn is_insert_position(entries: Seq<(Seq<char>, JVal)>, k: Seq<char>, i: int) -> bool {
    &&& 0 <= i <= entries.len()
    &&& i < entries.len() ==> key_less(k, entries[i].0)
    &&& forall|j: int| 0 <= j < i ==> !key_less(k, entries[j].0)
}

/// Where key `k` goes among the entries.
pub open spec fn insert_position(entries: Seq<(Seq<char>, JVal)>, k: Seq<char>) -> int {
    choose|i: int| is_insert_position(entries, k, i)
}

/// There is exactly one place for a key.
pub proof fn lemma_insert_position(entries: Seq<(Seq<char>, JVal)>, k: Seq<char>, i: int)
    ensures
        is_insert_position(entries, k, insert_position(entries, k)),
        is_insert_position(entries, k, i) ==> insert_position(entries, k) == i,
    decreases entries.len(),
{
    lemma_insert_position_exists(entries, k);
    let c = insert_position(entries, k);
    if is_insert_position(entries, k, i) {
        if c < i {
            assert(!key_less(k, entries[c].0));
        } else if c > i {
            assert(!key_less(k, entries[i].0));
        }
    }
}

proof fn lemma_insert_position_exists(entries: Seq<(Seq<char>, JVal)>, k: Seq<char>)
    ensures
        exists|i: int| is_insert_position(entries, k, i),
    decreases entries.len(),
{
    if entries.len() == 0 {
        assert(is_insert_position(entries, k, 0));
    } else {
        let front = entries.drop_last();
        let n = front.len() as int;
        lemma_insert_position_exists(front, k);
        let i = choose|i: int| is_insert_position(front, k, i);
        if i < n {
            assert(entries[i] == front[i]);
            assert forall|j: int| 0 <= j < i implies !key_less(k, #[trigger] entries[j].0) by {
                assert(entries[j] == front[j]);
            }
            assert(is_insert_position(entries, k, i));
        } else {
            assert forall|j: int| 0 <= j < n implies !key_less(k, #[trigger] entries[j].0) by {
                assert(entries[j] == front[j]);
            }
            if key_less(k, entries[n].0) {
                assert(is_insert_position(entries, k, n));
            } else {
                assert(is_insert_position(entries, k, n + 1));
            }
        }
    }
}

/// Whether `a` sorts before `b` as keys.
pub fn key_lt(a: &String, b: &String) -> (less: bool)
    ensures
        less == key_less(a@, b@),
{
    let x = chars_of(a.as_str());
    let y = chars_of(b.as_str());
    let mut i: usize = 0;
    assert(x@.subrange(0, x@.len() as int) =~= x@);
    assert(y@.subrange(0, y@.len() as int) =~= y@);
    while i < x.len() && i < y.len() && x[i] == y[i]
        invariant
            i <= x@.len(),
            i <= y@.len(),
            key_less(a@, b@) == key_less(
                x@.subrange(i as int, x@.len() as int),
                y@.subrange(i as int, y@.len() as int),
            ),
            x@ == a@,
            y@ == b@,
        decreases x@.len() - i,
    {
        assert(x@.subrange(i as int, x@.len() as int).drop_first() =~= x@.subrange(i + 1, x@.len() as int));
        assert(y@.subrange(i as int, y@.len() as int).drop_first() =~= y@.subrange(i + 1, y@.len() as int));
        i = i + 1;
    }
    if i == x.len() {
        i < y.len()
    } else if i == y.len() {
        false
    } else {
        x[i] < y[i]
    }
}

/// Where key `k` goes among the entries of `entries`.
pub fn find_insert_position(entries: &Vec<(String, JsonValue)>, k: &String) -> (pos: usize)
    ensures
        pos == insert_position(entries_view(entries@), k@),
        pos <= entries@.len(),
{
    let ghost ev = entries_view(entries@);
    let n = entries.len();
    let mut i: usize = 0;
    while i < n
        invariant
            ev == entries_view(entries@),
            n == entries@.len(),
            i <= n,
            forall|j: int| 0 <= j < i ==> !key_less(k@, #[trigger] ev[j].0),
        decreases n - i,
    {
        proof {
            lemma_entries_view(entries@);
        }
        assert(ev[i as int].0 == entries@[i as int].0@);
        if key_lt(k, &entries[i].0) {
            proof {
                lemma_insert_position(ev, k@, i as int);
            }
            return i;
        }
        i = i + 1;
    }
    proof {
        lemma_entries_view(entries@);
        lemma_insert_position(ev, k@, n as int);
    }
    n
}

/// `overlay` laid over `base`: two objects merge key by key, the overlay's
/// value merging into the base's value at a key they share and a new key
/// going in its place in key order; any other overlay value replaces the
/// base outright.
pub open spec fn merge_json(base: JVal, overlay: JVal) -> JVal
    decreases overlay, 0int,
{
    match overlay {
        JVal::Object(o) => match base {
            JVal::Object(b) => JVal::Object(merge_entries(b, o)),
            _ => overlay,
        },
        _ => overlay,
    }
}

/// The entries `o` laid, in order, over the entries `b`.
pub open spec fn merge_entries(b: Seq<(Seq<char>, JVal)>, o: Seq<(Seq<char>, JVal)>) -> Seq<(Seq<char>, JVal)>
    decreases o, 1int,
{
    if o.len() == 0 {
        b
    } else {
        let acc = merge_entries(b, o.drop_last());
        let k = o.last().0;
        let i = key_position(acc, k);
        if i >= 0 {
            acc.update(i, (k, merge_json(acc[i].1, o.last().1)))
        } else {
            acc.insert(insert_position(acc, k), (k, o.last().1))
        }
    }
}

proof fn lemma_entries_view_insert(s: Seq<(String, JsonValue)>, i: int, x: (String, JsonValue))
    requires
        0 <= i <= s.len(),
    ensures
        entries_view(s.insert(i, x)) == entries_view(s).insert(i, (x.0@, json_view(x.1))),
{
    lemma_entries_view(s);
    lemma_entries_view(s.insert(i, x));
    assert(entries_view(s.insert(i, x)) =~= entries_view(s).insert(i, (x.0@, json_view(x.1))));
}

proof fn lemma_entries_view_update(s: Seq<(String, JsonValue)>, i: int, x: (String, JsonValue))
    requires
        0 <= i < s.len(),
    ensures
        entries_view(s.update(i, x)) == entries_view(s).update(i, (x.0@, json_view(x.1))),
{
    lemma_entries_view(s);
    lemma_entries_view(s.update(i, x));
    assert(entries_view(s.update(i, x)) =~= entries_view(s).update(i, (x.0@, json_view(x.1))));
}

proof fn lemma_entries_view_remove(s: Seq<(String, JsonValue)>, i: int)
    requires
        0 <= i < s.len(),
    ensures
        entries_view(s.remove(i)) == entries_view(s).remove(i),
{
    lemma_entries_view(s);
    lemma_entries_view(s.remove(i));
    assert(entries_view(s.remove(i)) =~= entries_view(s).remove(i));
}

/// Lays `overlay` over `base`, as `merge_json` says.
///
/// Objects merge key by key rather than replacing wholesale, so an overlay
/// that sets one entry of a nested object does not erase the others. Any
/// non-object value replaces its counterpart outright.
pub fn merge_into(base: &mut JsonValue, overlay: JsonValue)
    ensures
        final(base)@ == merge_json(old(base)@, overlay@),
    decreases overlay@,
{
    let ghost whole = overlay@;
    match overlay {
        JsonValue::Object(mut o) => {
            match base {
                JsonValue::Object(b) => {
                    let ghost ov = entries_view(o@);
                    let ghost b0 = entries_view(b@);
                    let count: usize = o.len();
                    let ghost n: nat = count as nat;
                    proof {
                        lemma_entries_view(o@);
                        assert(ov.subrange(0, 0) =~= Seq::<(Seq<char>, JVal)>::empty());
                        assert(ov.subrange(0, n as int) =~= ov);
                    }
                    let mut j: usize = 0;
                    #[verifier::loop_isolation(false)]
                    while o.len() > 0
                        invariant
                            whole == JVal::Object(ov),
                            n == ov.len(),
                            n <= usize::MAX,
                            j + o@.len() == n,
                            entries_view(o@) == ov.subrange(j as int, n as int),
                            entries_view(b@) == merge_entries(b0, ov.subrange(0, j as int)),
                        decreases o@.len(),
                    {
                        let ghost before_o = o@;
                        let ghost acc = entries_view(b@);
                        proof {
                            lemma_entries_view(o@);
                            lemma_entries_view_remove(o@, 0);
                        }
                        let (k, v) = o.remove(0);
                        assert(entries_view(before_o)[0] == (k@, v@));
                        assert(ov[j as int] == (k@, v@));
                        assert(entries_view(o@) =~= ov.subrange(j + 1, n as int));
                        assert(ov.subrange(0, j + 1).drop_last() =~= ov.subrange(0, j as int));
                        assert(ov.subrange(0, j + 1).last() == (k@, v@));
                        match find_entry(b, &k) {
                            Some(i) => {
                                let ghost before_b = b@;
                                proof {
                                    lemma_entries_view(b@);
                                    lemma_entries_view_remove(b@, i as int);
                                }
                                let (kk, mut existing) = b.remove(i);
                                assert(acc[i as int] == (kk@, existing@));
                                assert(whole->Object_0 == ov);
                                assert(decreases_to!(whole => whole->Object_0));
                                assert(decreases_to!(ov => ov[j as int]));
                                assert(decreases_to!(ov[j as int] => ov[j as int].1));
                                assert(decreases_to!(whole => v@));
                                merge_into(&mut existing, v);
                                b.insert(i, (kk, existing));
                                proof {
                                    assert(b@ =~= before_b.update(i as int, b@[i as int]));
                                    lemma_entries_view_update(before_b, i as int, b@[i as int]);
                                }
                            },
                            None => {
                                let p = find_insert_position(b, &k);
                                proof {
                                    lemma_entries_view(b@);
                                    lemma_entries_view_insert(b@, p as int, (k, v));
                                }
                                b.insert(p, (k, v));
                            },
                        }
                        j = j + 1;
                    }
                    assert(ov.subrange(0, n as int) =~= ov);
                },
                _ => {
                    *base = JsonValue::Object(o);
                },
            }
        },
        other => {
            *base = other;
        },
    }
}

/// The optional abstract form of an optional JSON value.
pub open spec fn opt_view(v: Option<JsonValue>) -> Option<JVal> {
    match v {
        Some(x) => Some(x@),
        None => None,
    }
}

/// Settings layered from an optional user document and an optional project
/// document: both present merge with the project winning; either alone is
/// used as is.
pub open spec fn spec_merge_settings(user: Option<JVal>, project: Option<JVal>) -> Option<JVal> {
    match (user, project) {
        (Some(u), Some(p)) => Some(merge_json(u, p)),
        (u, None) => u,
        (None, p) => p,
    }
}

/// Layer project settings over user settings, project winning.
///
/// Objects merge key by key rather than replacing wholesale, so a project file
/// that sets one `env` var does not erase the rest of the user's `env`. Any
/// non-object value replaces its counterpart outright.
pub fn merge_settings(user: Option<JsonValue>, project: Option<JsonValue>) -> (merged: Option<JsonValue>)
    ensures
        opt_view(merged) == spec_merge_settings(opt_view(user), opt_view(project)),
{
    match (user, project) {
        (Some(mut u), Some(p)) => {
            merge_into(&mut u, p);
            Some(u)
        },
        (u, None) => u,
        (None, p) => p,
    }
}

/// No two entries share a key.
pub open spec fn keys_unique(entries: Seq<(Seq<char>, JVal)>) -> bool {
    forall|i: int, j: int| 0 <= i < j < entries.len() ==> entries[i].0 != entries[j].0
}

/// Replacing an entry by one with the same key moves no key.
proof fn lemma_key_position_update(
    entries: Seq<(Seq<char>, JVal)>,
    i: int,
    entry: (Seq<char>, JVal),
    k: Seq<char>,
)
    requires
        0 <= i < entries.len(),
        entry.0 == entries[i].0,
    ensures
        key_position(entries.update(i, entry), k) == key_position(entries, k),
{
    let u = entries.update(i, entry);
    assert forall|j: int| 0 <= j < entries.len() implies #[trigger] u[j].0 == entries[j].0 by {}
    lemma_key_position(entries, k);
    lemma_key_position(u, k);
    if has_key(entries, k) {
        let p = key_position(entries, k);
        assert(is_first_key(u, k, p));
        lemma_first_key_unique(u, k, p);
    } else {
        assert(!has_key(u, k)) by {
            if has_key(u, k) {
                let j = choose|j: int| 0 <= j < u.len() && u[j].0 == k;
                assert(entries[j].0 == k);
            }
        }
    }
}

/// Appending an entry with a new key leaves the other keys where they were
/// and puts the new key last.
proof fn lemma_key_position_push(entries: Seq<(Seq<char>, JVal)>, entry: (Seq<char>, JVal), k: Seq<char>)
    requires
        !has_key(entries, entry.0),
    ensures
        key_position(entries.push(entry), k) == if k == entry.0 {
            entries.len() as int
        } else {
            key_position(entries, k)
        },
{
    let p = entries.push(entry);
    assert forall|j: int| 0 <= j < entries.len() implies #[trigger] p[j] == entries[j] by {}
    lemma_key_position(entries, k);
    lemma_key_position(p, k);
    if k == entry.0 {
        assert forall|j: int| 0 <= j < entries.len() implies p[j].0 != k by {
            if p[j].0 == k {
                assert(entries[j].0 == k);
            }
        }
        assert(is_first_key(p, k, entries.len() as int));
        lemma_first_key_unique(p, k, entries.len() as int);
    } else if has_key(entries, k) {
        let q = key_position(entries, k);
        assert(is_first_key(p, k, q));
        lemma_first_key_unique(p, k, q);
    } else {
        assert(!has_key(p, k)) by {
            if has_key(p, k) {
                let j = choose|j: int| 0 <= j < p.len() && p[j].0 == k;
                if j < entries.len() {
                    assert(entries[j].0 == k);
                }
            }
        }
    }
}

/// Inserting an entry with a new key anywhere gives that key its value and
/// leaves the value of every other key.
proof fn lemma_entry_get_insert(entries: Seq<(Seq<char>, JVal)>, p: int, entry: (Seq<char>, JVal), k: Seq<char>)
    requires
        0 <= p <= entries.len(),
        !has_key(entries, entry.0),
    ensures
        entry_get(entries.insert(p, entry), k) == if k == entry.0 {
            Some(entry.1)
        } else {
            entry_get(entries, k)
        },
{
    let q = entries.insert(p, entry);
    assert forall|j: int| 0 <= j < p implies #[trigger] q[j] == entries[j] by {}
    assert forall|j: int| p < j < q.len() implies #[trigger] q[j] == entries[j - 1] by {}
    assert(q[p] == entry);
    lemma_key_position(entries, k);
    lemma_key_position(q, k);
    if k == entry.0 {
        assert forall|j: int| 0 <= j < p implies q[j].0 != k by {
            if q[j].0 == k {
                assert(entries[j].0 == k);
            }
        }
        assert(is_first_key(q, k, p));
        lemma_first_key_unique(q, k, p);
    } else if has_key(entries, k) {
        let r = key_position(entries, k);
        let r2 = if r < p { r } else { r + 1 };
        assert(q[r2] == entries[r]);
        assert forall|j: int| 0 <= j < r2 implies q[j].0 != k by {
            if j < p {
                assert(q[j] == entries[j]);
            } else if j > p {
                assert(q[j] == entries[j - 1]);
            }
        }
        assert(is_first_key(q, k, r2));
        lemma_first_key_unique(q, k, r2);
    } else {
        assert(!has_key(q, k)) by {
            if has_key(q, k) {
                let j = choose|j: int| 0 <= j < q.len() && q[j].0 == k;
                if j < p {
                    assert(q[j] == entries[j]);
                } else if j > p {
                    assert(q[j] == entries[j - 1]);
                }
            }
        }
    }
}

/// The value a key has after merging, from its value in the base and in the
/// overlay: the overlay's merged into the base's when both have it, else
/// whichever has it.
pub open spec fn merged_entry(base: Option<JVal>, overlay: Option<JVal>) -> Option<JVal> {
    match overlay {
        None => base,
        Some(o) => match base {
            Some(b) => Some(merge_json(b, o)),
            None => Some(o),
        },
    }
}

/// Key by key, merging entries gives the merged value of each key.
pub proof fn lemma_merge_entries_get(b: Seq<(Seq<char>, JVal)>, o: Seq<(Seq<char>, JVal)>, k: Seq<char>)
    requires
        keys_unique(o),
    ensures
        entry_get(merge_entries(b, o), k) == merged_entry(entry_get(b, k), entry_get(o, k)),
    decreases o.len(),
{
    lemma_key_position(o, k);
    if o.len() == 0 {
    } else {
        let f = o.drop_last();
        let last = o.last();
        let acc = merge_entries(b, f);
        assert(keys_unique(f));
        lemma_merge_entries_get(b, f, k);
        lemma_key_position(acc, last.0);
        lemma_key_position(acc, k);
        assert(!has_key(f, last.0)) by {
            if has_key(f, last.0) {
                let j = choose|j: int| 0 <= j < f.len() && f[j].0 == last.0;
                assert(o[j].0 == o[o.len() - 1].0);
            }
        }
        assert(o == f.push(last));
        lemma_key_position_push(f, last, k);
        let i = key_position(acc, last.0);
        if i >= 0 {
            let entry = (last.0, merge_json(acc[i].1, last.1));
            lemma_key_position_update(acc, i, entry, k);
        } else {
            lemma_insert_position(acc, last.0, 0);
            lemma_entry_get_insert(acc, insert_position(acc, last.0), (last.0, last.1), k);
        }
    }
}

/// Merging keeps the keys of an object distinct.
pub proof fn lemma_merge_entries_keys_unique(b: Seq<(Seq<char>, JVal)>, o: Seq<(Seq<char>, JVal)>)
    requires
        keys_unique(b),
    ensures
        keys_unique(merge_entries(b, o)),
    decreases o.len(),
{
    if o.len() > 0 {
        let f = o.drop_last();
        let last = o.last();
        lemma_merge_entries_keys_unique(b, f);
        let acc = merge_entries(b, f);
        lemma_key_position(acc, last.0);
        let i = key_position(acc, last.0);
        if i >= 0 {
            let u = acc.update(i, (last.0, merge_json(acc[i].1, last.1)));
            assert forall|x: int, y: int| 0 <= x < y < u.len() implies u[x].0 != u[y].0 by {
                assert(u[x].0 == acc[x].0);
                assert(u[y].0 == acc[y].0);
            }
        } else {
            lemma_insert_position(acc, last.0, 0);
            let at = insert_position(acc, last.0);
            let p = acc.insert(at, (last.0, last.1));
            assert forall|x: int, y: int| 0 <= x < y < p.len() implies p[x].0 != p[y].0 by {
                let ax = if x < at { x } else { x - 1 };
                let ay = if y < at { y } else { y - 1 };
                if x != at && y != at {
                    assert(p[x] == acc[ax]);
                    assert(p[y] == acc[ay]);
                } else if x == at {
                    assert(p[y] == acc[ay]);
                } else {
                    assert(p[x] == acc[ax]);
                }
            }
        }
    }
}

/// Laying a settings object over another, key by key: a key the project sets
/// takes the project's value, merged into the user's when both are objects; a
/// key only the user sets keeps the user's value.
pub proof fn law_merge_key_by_key(user: Seq<(Seq<char>, JVal)>, project: Seq<(Seq<char>, JVal)>, k: Seq<char>)
    requires
        keys_unique(project),
    ensures
        object_get(merge_json(JVal::Object(user), JVal::Object(project)), k) == merged_entry(
            entry_get(user, k),
            entry_get(project, k),
        ),
{
    lemma_merge_entries_get(user, project, k);
}

/// The project wins: where the project sets a key to anything but an object,
/// the merged settings hold the project's value there, whatever the user set.
pub proof fn law_project_wins(user: Seq<(Seq<char>, JVal)>, project: Seq<(Seq<char>, JVal)>, k: Seq<char>)
    requires
        keys_unique(project),
        entry_get(project, k) matches Some(v) && !(v is Object),
    ensures
        object_get(merge_json(JVal::Object(user), JVal::Object(project)), k) == entry_get(project, k),
{
    lemma_merge_entries_get(user, project, k);
}

/// The user's settings survive where the project is silent.
pub proof fn law_user_settings_survive(user: Seq<(Seq<char>, JVal)>, project: Seq<(Seq<char>, JVal)>, k: Seq<char>)
    requires
        keys_unique(project),
        !has_key(project, k),
    ensures
        object_get(merge_json(JVal::Object(user), JVal::Object(project)), k) == entry_get(user, k),
{
    lemma_key_position(project, k);
    lemma_merge_entries_get(user, project, k);
}

/// Objects merge rather than replace: where both set a key to an object, the
/// merged value is those two objects merged.
pub proof fn law_objects_merge(user: Seq<(Seq<char>, JVal)>, project: Seq<(Seq<char>, JVal)>, k: Seq<char>)
    requires
        keys_unique(project),
        entry_get(user, k) matches Some(JVal::Object(_)),
        entry_get(project, k) matches Some(JVal::Object(_)),
    ensures
        object_get(merge_json(JVal::Object(user), JVal::Object(project)), k) == Some(
            JVal::Object(merge_entries(
                entry_get(user, k)->0->Object_0,
                entry_get(project, k)->0->Object_0,
            )),
        ),
{
    lemma_merge_entries_get(user, project, k);
}

/// Either settings document alone is used as it is, and no document gives
/// no settings.
pub proof fn law_single_document_used_as_is(doc: JVal)
    ensures
        spec_merge_settings(Some(doc), None) == Some(doc),
        spec_merge_settings(None, Some(doc)) == Some(doc),
        spec_merge_settings(None, None) is None,
{
}

/// Merging two objects with distinct keys gives an object with distinct keys.
pub proof fn law_merge_keeps_keys_unique(user: Seq<(Seq<char>, JVal)>, project: Seq<(Seq<char>, JVal)>)
    requires
        keys_unique(user),
    ensures
        merge_json(JVal::Object(user), JVal::Object(project)) matches JVal::Object(e) && keys_unique(e),
{
    lemma_merge_entries_keys_unique(user, project);
}

/// A well-formed value: the keys of every object, at every depth, are
/// distinct, as in a parsed document.
pub open spec fn json_wf(v: JVal) -> bool
    decreases v, 0int,
{
    match v {
        JVal::Array(items) => items_wf(items),
        JVal::Object(entries) => keys_sorted(entries) && entries_wf(entries),
        _ => true,
    }
}

/// Every item is well-formed.
pub open spec fn items_wf(items: Seq<JVal>) -> bool
    decreases items, 1int,
{
    if items.len() == 0 {
        true
    } else {
        items_wf(items.drop_last()) && json_wf(items.last())
    }
}

/// Every entry's value is well-formed.
pub open spec fn entries_wf(entries: Seq<(Seq<char>, JVal)>) -> bool
    decreases entries, 1int,
{
    if entries.len() == 0 {
        true
    } else {
        entries_wf(entries.drop_last()) && json_wf(entries.last().1)
    }
}

/// `entries_wf` holds exactly when each entry's value is well-formed.
pub proof fn lemma_entries_wf(entries: Seq<(Seq<char>, JVal)>)
    ensures
        entries_wf(entries) <==> forall|i: int| 0 <= i < entries.len() ==> json_wf(#[trigger] entries[i].1),
    decreases entries.len(),
{
    if entries.len() > 0 {
        let f = entries.drop_last();
        lemma_entries_wf(f);
        if entries_wf(entries) {
            assert forall|i: int| 0 <= i < entries.len() implies json_wf(#[trigger] entries[i].1) by {
                if i < f.len() {
                    assert(f[i] == entries[i]);
                }
            }
        }
        if forall|i: int| 0 <= i < entries.len() ==> json_wf(#[trigger] entries[i].1) {
            assert forall|i: int| 0 <= i < f.len() implies json_wf(#[trigger] f[i].1) by {
                assert(f[i] == entries[i]);
            }
            assert(json_wf(entries[entries.len() - 1].1));
        }
    }
}

/// Merging well-formed values gives a well-formed value.
pub proof fn lemma_merge_json_wf(base: JVal, overlay: JVal)
    requires
        json_wf(base),
        json_wf(overlay),
    ensures
        json_wf(merge_json(base, overlay)),
    decreases overlay, 0int,
{
    if let JVal::Object(o) = overlay {
        if let JVal::Object(b) = base {
            lemma_merge_entries_wf(b, o);
            lemma_merge_entries_sorted(b, o);
        }
    }
}

/// Merging keeps the keys of an object in key order.
pub proof fn lemma_merge_entries_sorted(b: Seq<(Seq<char>, JVal)>, o: Seq<(Seq<char>, JVal)>)
    requires
        keys_sorted(b),
    ensures
        keys_sorted(merge_entries(b, o)),
    decreases o.len(),
{
    if o.len() > 0 {
        let f = o.drop_last();
        let last = o.last();
        lemma_merge_entries_sorted(b, f);
        let acc = merge_entries(b, f);
        lemma_key_position(acc, last.0);
        let i = key_position(acc, last.0);
        if i >= 0 {
            let u = acc.update(i, (last.0, merge_json(acc[i].1, last.1)));
            assert forall|x: int, y: int| 0 <= x < y < u.len() implies key_less(u[x].0, u[y].0) by {
                assert(u[x].0 == acc[x].0);
                assert(u[y].0 == acc[y].0);
            }
        } else {
            lemma_insert_position(acc, last.0, 0);
            let at = insert_position(acc, last.0);
            let k = last.0;
            let p = acc.insert(at, (k, last.1));
            assert forall|x: int, y: int| 0 <= x < y < p.len() implies key_less(p[x].0, p[y].0) by {
                if x != at && y != at {
                    let ax = if x < at { x } else { x - 1 };
                    let ay = if y < at { y } else { y - 1 };
                    assert(p[x] == acc[ax]);
                    assert(p[y] == acc[ay]);
                } else if x == at {
                    let ay = y - 1;
                    assert(p[y] == acc[ay]);
                    if ay > at {
                        lemma_key_less_order(k, acc[at].0, acc[ay].0);
                    }
                } else {
                    assert(p[x] == acc[x]);
                    assert(!key_less(k, acc[x].0));
                    assert(acc[x].0 != k);
                    lemma_key_less_order(acc[x].0, k, k);
                }
            }
        }
    }
}

/// Merging entries with well-formed values keeps the values well-formed.
pub proof fn lemma_merge_entries_wf(b: Seq<(Seq<char>, JVal)>, o: Seq<(Seq<char>, JVal)>)
    requires
        entries_wf(b),
        entries_wf(o),
    ensures
        entries_wf(merge_entries(b, o)),
    decreases o, 1int,
{
    if o.len() > 0 {
        let f = o.drop_last();
        let last = o.last();
        lemma_merge_entries_wf(b, f);
        let acc = merge_entries(b, f);
        lemma_entries_wf(acc);
        lemma_entries_wf(o);
        assert(json_wf(o[o.len() - 1].1));
        lemma_key_position(acc, last.0);
        let i = key_position(acc, last.0);
        if i >= 0 {
            assert(json_wf(acc[i].1));
            assert(decreases_to!(o => o[o.len() - 1]));
            assert(decreases_to!(o[o.len() - 1] => o[o.len() - 1].1));
            lemma_merge_json_wf(acc[i].1, last.1);
            let u = acc.update(i, (last.0, merge_json(acc[i].1, last.1)));
            lemma_entries_wf(u);
            assert forall|j: int| 0 <= j < u.len() implies json_wf(#[trigger] u[j].1) by {
                if j != i {
                    assert(u[j] == acc[j]);
                }
            }
        } else {
            lemma_insert_position(acc, last.0, 0);
            let at = insert_position(acc, last.0);
            let p = acc.insert(at, (last.0, last.1));
            lemma_entries_wf(p);
            assert forall|j: int| 0 <= j < p.len() implies json_wf(#[trigger] p[j].1) by {
                if j < at {
                    assert(p[j] == acc[j]);
                } else if j > at {
                    assert(p[j] == acc[j - 1]);
                }
            }
        }
    }
}

/// Merging keeps settings well-formed: the keys of every object, at every
/// depth, stay distinct.
pub proof fn law_merge_keeps_wf(base: JVal, overlay: JVal)
    requires
        json_wf(base),
        json_wf(overlay),
    ensures
        json_wf(merge_json(base, overlay)),
{
    lemma_merge_json_wf(base, overlay);
}

/// Merging the first `n` entries of well-formed entries into themselves
/// changes nothing.
proof fn lemma_merge_entries_self(e: Seq<(Seq<char>, JVal)>, n: int)
    requires
        keys_unique(e),
        entries_wf(e),
        0 <= n <= e.len(),
    ensures
        merge_entries(e, e.subrange(0, n)) == e,
    decreases e, n,
{
    if n > 0 {
        let prefix = e.subrange(0, n);
        assert(prefix.drop_last() =~= e.subrange(0, n - 1));
        lemma_merge_entries_self(e, n - 1);
        let k = e[n - 1].0;
        assert(is_first_key(e, k, n - 1));
        lemma_first_key_unique(e, k, n - 1);
        lemma_entries_wf(e);
        assert(json_wf(e[n - 1].1));
        assert(decreases_to!(e => e[n - 1]));
        assert(decreases_to!(e[n - 1] => e[n - 1].1));
        lemma_merge_self(e[n - 1].1);
        assert(prefix.last() == e[n - 1]);
        assert(e.update(n - 1, (k, e[n - 1].1)) =~= e);
    } else {
        assert(e.subrange(0, 0) =~= Seq::<(Seq<char>, JVal)>::empty());
    }
}

/// A well-formed value merged into itself is itself.
proof fn lemma_merge_self(v: JVal)
    requires
        json_wf(v),
    ensures
        merge_json(v, v) == v,
    decreases v, 0int,
{
    if let JVal::Object(e) = v {
        lemma_sorted_keys_unique(e);
        lemma_merge_entries_self(e, e.len() as int);
        assert(e.subrange(0, e.len() as int) =~= e);
    }
}

/// Layering well-formed settings over themselves changes nothing.
pub proof fn law_merge_self_is_identity(v: JVal)
    requires
        json_wf(v),
    ensures
        merge_json(v, v) == v,
{
    lemma_merge_self(v);
}

/// Merging the first `n` entries of `e` into the empty object gives those
/// entries.
proof fn lemma_merge_into_empty(e: Seq<(Seq<char>, JVal)>, n: int)
    requires
        keys_sorted(e),
        0 <= n <= e.len(),
    ensures
        merge_entries(Seq::empty(), e.subrange(0, n)) == e.subrange(0, n),
    decreases n,
{
    if n > 0 {
        let prefix = e.subrange(0, n);
        let front = e.subrange(0, n - 1);
        let k = e[n - 1].0;
        assert(prefix.drop_last() =~= front);
        lemma_merge_into_empty(e, n - 1);
        lemma_key_position(front, k);
        lemma_sorted_keys_unique(e);
        assert(!has_key(front, k)) by {
            if has_key(front, k) {
                let j = choose|j: int| 0 <= j < front.len() && front[j].0 == k;
                assert(e[j].0 == k);
            }
        }
        assert forall|j: int| 0 <= j < n - 1 implies !key_less(k, #[trigger] front[j].0) by {
            assert(front[j] == e[j]);
            assert(key_less(e[j].0, k));
            lemma_key_less_order(e[j].0, k, k);
        }
        assert(is_insert_position(front, k, n - 1));
        lemma_insert_position(front, k, n - 1);
        assert(front.insert(n - 1, (k, e[n - 1].1)) =~= prefix);
    } else {
        assert(e.subrange(0, 0) =~= Seq::<(Seq<char>, JVal)>::empty());
    }
}

/// The empty object is an identity on both sides: merging it over an object
/// leaves the object, and merging an object whose keys are in key order (as
/// in every parsed document) over it gives that object.
pub proof fn law_empty_object_is_identity(e: Seq<(Seq<char>, JVal)>)
    ensures
        merge_json(JVal::Object(e), JVal::Object(Seq::empty())) == JVal::Object(e),
        keys_sorted(e) ==> merge_json(JVal::Object(Seq::empty()), JVal::Object(e)) == JVal::Object(e),
{
    if keys_sorted(e) {
        lemma_merge_into_empty(e, e.len() as int);
        assert(e.subrange(0, e.len() as int) =~= e);
    }
}

/// The document that `serde_json::from_str` reads out of a text, if the
/// text is JSON.
pub uninterp spec fn spec_parse_json(raw: Seq<char>) -> Option<JVal>;

#[verifier::external_type_specification]
#[verifier::external_body]
pub struct ExSerdeJsonValue(serde_json::Value);

/// Moves a `serde_json::Value` into the library's value, variant for variant
/// and entry for entry, a number as the text its `Display` gives. Nothing is
/// claimed of it; `parse_json` states what it gives.
#[verifier::external_body]
fn json_from_serde(v: serde_json::Value) -> JsonValue {
    match v {
        serde_json::Value::Null => JsonValue::Null,
        serde_json::Value::Bool(b) => JsonValue::Bool(b),
        serde_json::Value::Number(n) => JsonValue::Number(n.to_string()),
        serde_json::Value::String(s) => JsonValue::Str(s),
        serde_json::Value::Array(a) => JsonValue::Array(a.into_iter().map(json_from_serde).collect()),
        serde_json::Value::Object(m) => JsonValue::Object(m.into_iter().map(|(k, x)| (k, json_from_serde(x))).collect()),
    }
}

/// Parses a settings text with `serde_json::from_str` into a
/// `serde_json::Value` and moves it into the library's value. Trusted to
/// give a result that depends on the text alone (named `spec_parse_json`;
/// `None` when the text is not JSON), in which the keys of every object are
/// distinct and in key order, as the sorted map that `serde_json` keeps them
/// in holds each key once and hands them out in order.
/// What the parse gives for a given text is left to that name.
#[verifier::external_body]
pub fn parse_json(raw: &str) -> (doc: Option<JsonValue>)
    ensures
        opt_view(doc) == spec_parse_json(raw@),
        doc matches Some(d) ==> json_wf(d@),
{
    serde_json::from_str::<serde_json::Value>(raw).ok().map(json_from_serde)
}

} // verus!
