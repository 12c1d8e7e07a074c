//! The bookmark store: an ordered association of composite string keys with
//! path records, kept sorted by key so that listings come out in key order.

use vstd::prelude::*;

verus! {

/// Strict lexicographic order on keys, comparing character code points.
pub open spec fn key_lt(a: Seq<char>, b: Seq<char>) -> bool
    decreases a.len(),
{
    if b.len() == 0 {
        false
    } else if a.len() == 0 {
        true
    } else if a[0] != b[0] {
        (a[0] as u32) < (b[0] as u32)
    } else {
        key_lt(a.skip(1), b.skip(1))
    }
}

pub proof fn lemma_key_lt_irrefl(a: Seq<char>)
    ensures
        !key_lt(a, a),
    decreases a.len(),
{
    if a.len() > 0 {
        lemma_key_lt_irrefl(a.skip(1));
    }
}

pub proof fn lemma_key_lt_trans(a: Seq<char>, b: Seq<char>, c: Seq<char>)
    requires
        key_lt(a, b),
        key_lt(b, c),
    ensures
        key_lt(a, c),
    decreases a.len() + b.len() + c.len(),
{
    if b.len() == 0 {
        // key_lt(a, b) forces a to be empty as well, and c must be non-empty
    } else if a.len() == 0 {
        // c is non-empty because key_lt(b, c) holds
    } else if a[0] == b[0] && b[0] == c[0] {
        lemma_key_lt_trans(a.skip(1), b.skip(1), c.skip(1));
    }
}

pub proof fn lemma_key_lt_connex(a: Seq<char>, b: Seq<char>)
    ensures
        key_lt(a, b) || key_lt(b, a) || a == b,
    decreases a.len(),
{
    if a.len() == 0 && b.len() == 0 {
        assert(a =~= b);
    }
    if a.len() > 0 && b.len() > 0 && a[0] != b[0] {
        assert(a[0] as u32 != b[0] as u32) by {
            vstd::utf8::char_u32_cast(a[0], a[0] as u32);
            vstd::utf8::char_u32_cast(b[0], b[0] as u32);
        }
    }
    if a.len() > 0 && b.len() > 0 && a[0] == b[0] {
        lemma_key_lt_connex(a.skip(1), b.skip(1));
        if a.skip(1) == b.skip(1) {
            assert(a.skip(1).len() == b.skip(1).len());
            assert(a.len() == b.len());
            assert forall|i: int| 0 <= i < a.len() implies a[i] == b[i] by {
                if i > 0 {
                    assert(a[i] == a.skip(1)[i - 1]);
                    assert(b[i] == b.skip(1)[i - 1]);
                }
            }
            assert(a =~= b);
        }
    }
}

} // verus!

verus! {

/// The mapping described by a key/value sequence; a later entry for a key
/// overrides an earlier one.
pub open spec fn kv_map<V>(s: Seq<(Seq<char>, V)>) -> Map<Seq<char>, V>
    decreases s.len(),
{
    if s.len() == 0 {
        Map::empty()
    } else {
        kv_map(s.drop_last()).insert(s.last().0, s.last().1)
    }
}

/// Some entry of `s` carries the key `k`.
pub open spec fn has_key<V>(s: Seq<(Seq<char>, V)>, k: Seq<char>) -> bool {
    exists|i: int| 0 <= i < s.len() && (#[trigger] s[i]).0 == k
}

pub proof fn lemma_kv_map_contains<V>(s: Seq<(Seq<char>, V)>, k: Seq<char>)
    ensures
        kv_map(s).contains_key(k) <==> has_key(s, k),
    decreases s.len(),
{
    if s.len() > 0 {
        lemma_kv_map_contains(s.drop_last(), k);
        if s.last().0 == k {
            assert(s[s.len() - 1].0 == k);
        } else {
            if has_key(s, k) {
                let i = choose|i: int| 0 <= i < s.len() && (#[trigger] s[i]).0 == k;
                assert(s.drop_last()[i] == s[i]);
                assert(has_key(s.drop_last(), k));
            }
            if has_key(s.drop_last(), k) {
                let i = choose|i: int| 0 <= i < s.drop_last().len() && (#[trigger] s.drop_last()[i]).0 == k;
                assert(s[i] == s.drop_last()[i]);
            }
        }
    }
}

pub proof fn lemma_kv_map_get<V>(s: Seq<(Seq<char>, V)>, i: int)
    requires
        0 <= i < s.len(),
        forall|j: int| i < j < s.len() ==> (#[trigger] s[j]).0 != s[i].0,
    ensures
        kv_map(s).contains_key(s[i].0),
        kv_map(s)[s[i].0] == s[i].1,
    decreases s.len(),
{
    if i < s.len() - 1 {
        assert(s.drop_last()[i] == s[i]);
        assert forall|j: int| i < j < s.drop_last().len() implies (#[trigger] s.drop_last()[j]).0 != s.drop_last()[i].0 by {
            assert(s.drop_last()[j] == s[j]);
        }
        lemma_kv_map_get(s.drop_last(), i);
    }
}

pub proof fn lemma_kv_map_update<V>(s: Seq<(Seq<char>, V)>, i: int, v: V)
    requires
        0 <= i < s.len(),
        forall|j: int| i < j < s.len() ==> (#[trigger] s[j]).0 != s[i].0,
    ensures
        kv_map(s.update(i, (s[i].0, v))) == kv_map(s).insert(s[i].0, v),
    decreases s.len(),
{
    let k = s[i].0;
    let t = s.update(i, (k, v));
    if i == s.len() - 1 {
        assert(t.drop_last() =~= s.drop_last());
        assert(kv_map(s.drop_last()).insert(k, s[i].1).insert(k, v) =~= kv_map(s.drop_last()).insert(k, v));
    } else {
        assert(t.drop_last() =~= s.drop_last().update(i, (k, v)));
        assert(s.drop_last()[i] == s[i]);
        assert forall|j: int| i < j < s.drop_last().len() implies (#[trigger] s.drop_last()[j]).0 != s.drop_last()[i].0 by {
            assert(s.drop_last()[j] == s[j]);
        }
        lemma_kv_map_update(s.drop_last(), i, v);
        assert(t.last() == s.last());
        assert(s.last().0 != k);
        assert(kv_map(s.drop_last()).insert(k, v).insert(s.last().0, s.last().1)
            =~= kv_map(s.drop_last()).insert(s.last().0, s.last().1).insert(k, v));
    }
}

pub proof fn lemma_kv_map_insert<V>(s: Seq<(Seq<char>, V)>, i: int, k: Seq<char>, v: V)
    requires
        0 <= i <= s.len(),
        forall|j: int| 0 <= j < s.len() ==> (#[trigger] s[j]).0 != k,
    ensures
        kv_map(s.insert(i, (k, v))) == kv_map(s).insert(k, v),
    decreases s.len(),
{
    let t = s.insert(i, (k, v));
    if i == s.len() {
        assert(t.drop_last() =~= s);
        assert(t.last() == (k, v));
    } else {
        assert(t.last() == s.last());
        assert(t.drop_last() =~= s.drop_last().insert(i, (k, v)));
        assert forall|j: int| 0 <= j < s.drop_last().len() implies (#[trigger] s.drop_last()[j]).0 != k by {
            assert(s.drop_last()[j] == s[j]);
        }
        lemma_kv_map_insert(s.drop_last(), i, k, v);
        assert(s.last().0 != k);
        assert(kv_map(s.drop_last()).insert(k, v).insert(s.last().0, s.last().1)
            =~= kv_map(s.drop_last()).insert(s.last().0, s.last().1).insert(k, v));
    }
}

pub proof fn lemma_kv_map_remove<V>(s: Seq<(Seq<char>, V)>, i: int)
    requires
        0 <= i < s.len(),
        forall|j: int| 0 <= j < s.len() && j != i ==> (#[trigger] s[j]).0 != s[i].0,
    ensures
        kv_map(s.remove(i)) == kv_map(s).remove(s[i].0),
    decreases s.len(),
{
    let k = s[i].0;
    let t = s.remove(i);
    if i == s.len() - 1 {
        assert(t =~= s.drop_last());
        lemma_kv_map_contains(s.drop_last(), k);
        assert forall|j: int| 0 <= j < s.drop_last().len() implies (#[trigger] s.drop_last()[j]).0 != k by {
            assert(s.drop_last()[j] == s[j]);
        }
        assert(!has_key(s.drop_last(), k));
        assert(kv_map(s.drop_last()).insert(k, s[i].1).remove(k) =~= kv_map(s.drop_last()));
    } else {
        assert(t.last() == s.last());
        assert(t.drop_last() =~= s.drop_last().remove(i));
        assert(s.drop_last()[i] == s[i]);
        assert forall|j: int| 0 <= j < s.drop_last().len() && j != i implies (#[trigger] s.drop_last()[j]).0 != s.drop_last()[i].0 by {
            assert(s.drop_last()[j] == s[j]);
        }
        lemma_kv_map_remove(s.drop_last(), i);
        assert(s.last().0 != k);
        assert(kv_map(s.drop_last()).remove(k).insert(s.last().0, s.last().1)
            =~= kv_map(s.drop_last()).insert(s.last().0, s.last().1).remove(k));
    }
}

} // verus!

verus! {

use vstd::string::*;

/// A single bookmark record: the stored filesystem path, held as a plain
/// string and never interpreted by this layer.
#[derive(Clone, Debug, PartialEq)]
pub struct Dirmark {
    pub path: String,
}

impl Dirmark {
    pub fn with_value(value: String) -> (r: Self)
        ensures
            r.path@ == value@,
    {
        Dirmark { path: value }
    }
}

/// All keys of `s` are in strictly ascending order.
pub open spec fn keys_sorted<V>(s: Seq<(Seq<char>, V)>) -> bool {
    forall|i: int, j: int|
        0 <= i < j < s.len() ==> key_lt((#[trigger] s[i]).0, (#[trigger] s[j]).0)
}

/// In a strictly sorted sequence every key occurs once.
pub proof fn lemma_sorted_unique<V>(s: Seq<(Seq<char>, V)>, i: int)
    requires
        keys_sorted(s),
        0 <= i < s.len(),
    ensures
        forall|j: int| 0 <= j < s.len() && j != i ==> (#[trigger] s[j]).0 != s[i].0,
{
    assert forall|j: int| 0 <= j < s.len() && j != i implies (#[trigger] s[j]).0 != s[i].0 by {
        lemma_key_lt_irrefl(s[i].0);
    }
}

/// The bookmark store: an ordered mapping from composite keys to records,
/// kept as a vector of entries sorted strictly by key.
#[derive(Clone, Debug, PartialEq)]
pub struct Dirmarks {
    entries: Vec<(String, Dirmark)>,
}

impl View for Dirmarks {
    type V = Seq<(Seq<char>, Seq<char>)>;

    closed spec fn view(&self) -> Seq<(Seq<char>, Seq<char>)> {
        self.entries@.map_values(|e: (String, Dirmark)| (e.0@, e.1.path@))
    }
}

/// The composite key: the segments joined with a `.` delimiter, with no
/// escaping of dots inside a segment.
pub open spec fn joined(segments: Seq<Seq<char>>) -> Seq<char>
    decreases segments.len(),
{
    if segments.len() == 0 {
        Seq::empty()
    } else if segments.len() == 1 {
        segments[0]
    } else {
        joined(segments.drop_last()) + "."@ + segments.last()
    }
}

/// Compares two keys character by character.
pub fn key_lt_exec(a: &str, b: &str) -> (r: bool)
    ensures
        r == key_lt(a@, b@),
{
    let alen = a.unicode_len();
    let blen = b.unicode_len();
    let mut i: usize = 0;
    proof {
        assert(a@.skip(0) =~= a@);
        assert(b@.skip(0) =~= b@);
    }
    loop
        invariant
            i <= alen,
            i <= blen,
            alen == a@.len(),
            blen == b@.len(),
            key_lt(a@, b@) == key_lt(a@.skip(i as int), b@.skip(i as int)),
        decreases alen - i,
    {
        if i == blen {
            proof {
                assert(b@.skip(i as int).len() == 0);
            }
            return false;
        }
        if i == alen {
            return true;
        }
        let ca = a.get_char(i);
        let cb = b.get_char(i);
        proof {
            assert(a@.skip(i as int)[0] == a@[i as int]);
            assert(b@.skip(i as int)[0] == b@[i as int]);
        }
        if ca != cb {
            return (ca as u32) < (cb as u32);
        }
        proof {
            assert(a@.skip(i as int).skip(1) =~= a@.skip(i as int + 1));
            assert(b@.skip(i as int).skip(1) =~= b@.skip(i as int + 1));
        }
        i = i + 1;
    }
}

/// View equality of two string slices.
pub(crate) fn str_eq(a: &str, b: &str) -> (r: bool)
    ensures
        r == (a@ == b@),
{
    let sa = a.to_owned();
    let sb = b.to_owned();
    sa == sb
}

/// Joins key segments with `.` into the composite key.
pub fn join_segments(segments: &Vec<String>) -> (r: String)
    ensures
        r@ == joined(segments.deep_view()),
{
    let ghost dv = segments.deep_view();
    let mut r = String::new();
    let n = segments.len();
    let mut i: usize = 0;
    while i < n
        invariant
            i <= n,
            n == segments@.len(),
            dv == segments.deep_view(),
            r@ == joined(dv.take(i as int)),
        decreases n - i,
    {
        if i > 0 {
            r.append(".");
        }
        r.append(segments[i].as_str());
        proof {
            assert(dv[i as int] == segments@[i as int]@);
            assert(dv.take(i as int + 1).drop_last() =~= dv.take(i as int));
            assert(dv.take(i as int + 1).last() == dv[i as int]);
            if i == 0 {
                assert(r@ =~= dv[0]);
                assert(joined(dv.take(1)) == dv.take(1)[0]);
            } else {
                assert(r@ =~= joined(dv.take(i as int)) + "."@ + dv[i as int]);
            }
        }
        i = i + 1;
    }
    proof {
        assert(dv.take(n as int) =~= dv);
    }
    r
}

} // verus!

verus! {

impl Dirmarks {
    /// The entries are strictly sorted by key.
    pub open spec fn wf(&self) -> bool {
        keys_sorted(self@)
    }

    /// The mapping held by the store.
    pub open spec fn as_map(&self) -> Map<Seq<char>, Seq<char>> {
        kv_map(self@)
    }

    pub fn new() -> (r: Self)
        ensures
            r.wf(),
            r@.len() == 0,
            r.as_map() == Map::<Seq<char>, Seq<char>>::empty(),
    {
        Dirmarks { entries: Vec::new() }
    }

    /// The position of the first entry whose key is not below `key`.
    fn find_pos(&self, key: &str) -> (r: usize)
        ensures
            r <= self@.len(),
            forall|j: int| 0 <= j < r ==> key_lt((#[trigger] self@[j]).0, key@),
            r < self@.len() ==> !key_lt(self@[r as int].0, key@),
    {
        let n = self.entries.len();
        let mut i: usize = 0;
        loop
            invariant
                i <= n,
                n == self.entries@.len(),
                forall|j: int| 0 <= j < i ==> key_lt((#[trigger] self@[j]).0, key@),
            decreases n - i,
        {
            if i == n {
                return i;
            }
            let e = &self.entries[i];
            proof {
                assert(self@[i as int] == (self.entries@[i as int].0@, self.entries@[i as int].1.path@));
            }
            if !key_lt_exec(e.0.as_str(), key) {
                return i;
            }
            i = i + 1;
        }
    }

    /// The index of the entry with key `key`, if one exists.
    fn find_index(&self, key: &str) -> (r: Option<usize>)
        ensures
            match r {
                Some(i) => i < self@.len() && self@[i as int].0 == key@,
                None => forall|i: int| 0 <= i < self@.len() ==> (#[trigger] self@[i]).0 != key@,
            },
    {
        let n = self.entries.len();
        let mut i: usize = 0;
        loop
            invariant
                i <= n,
                n == self.entries@.len(),
                forall|j: int| 0 <= j < i ==> (#[trigger] self@[j]).0 != key@,
            decreases n - i,
        {
            if i == n {
                return None;
            }
            let e = &self.entries[i];
            proof {
                assert(self@[i as int] == (self.entries@[i as int].0@, self.entries@[i as int].1.path@));
            }
            if str_eq(e.0.as_str(), key) {
                return Some(i);
            }
            i = i + 1;
        }
    }

    /// Inserts or overwrites the record at the composite key itself,
    /// returning the prior record for that key if one existed.
    pub fn insert_at(&mut self, key: &str, value: String) -> (r: Option<Dirmark>)
        requires
            old(self).wf(),
        ensures
            final(self).wf(),
            final(self).as_map() == old(self).as_map().insert(key@, value@),
            match r {
                Some(d) => old(self).as_map().contains_key(key@) && d.path@
                    == old(self).as_map()[key@],
                None => !old(self).as_map().contains_key(key@),
            },
    {
        let ghost s0 = self@;
        let i = self.find_pos(key);
        let n = self.entries.len();
        if i < n && str_eq(self.entries[i].0.as_str(), key) {
            proof {
                assert(s0[i as int] == (self.entries@[i as int].0@, self.entries@[i as int].1.path@));
            }
            let old_e = self.entries.remove(i);
            self.entries.insert(i, (key.to_owned(), Dirmark::with_value(value)));
            proof {
                assert(self@ =~= s0.update(i as int, (key@, value@)));
                lemma_sorted_unique(s0, i as int);
                lemma_kv_map_get(s0, i as int);
                lemma_kv_map_update(s0, i as int, value@);
                assert(s0.update(i as int, (key@, value@)) =~= self@);
                assert forall|a: int, b: int| 0 <= a < b < self@.len() implies key_lt(
                    (#[trigger] self@[a]).0,
                    (#[trigger] self@[b]).0,
                ) by {
                    assert(self@[a].0 == s0[a].0);
                    assert(self@[b].0 == s0[b].0);
                }
            }
            Some(old_e.1)
        } else {
            proof {
                if i < n {
                    assert(self@[i as int] == (self.entries@[i as int].0@, self.entries@[i as int].1.path@));
                    lemma_key_lt_connex(s0[i as int].0, key@);
                    assert(key_lt(key@, s0[i as int].0));
                }
                assert forall|j: int| 0 <= j < s0.len() implies (#[trigger] s0[j]).0 != key@ by {
                    if j < i {
                        lemma_key_lt_irrefl(key@);
                        if s0[j].0 == key@ {
                            assert(key_lt(key@, key@));
                        }
                    } else {
                        if j > i {
                            assert(key_lt(s0[i as int].0, s0[j].0));
                            lemma_key_lt_trans(key@, s0[i as int].0, s0[j].0);
                        }
                        lemma_key_lt_irrefl(key@);
                        if s0[j].0 == key@ {
                            assert(key_lt(key@, key@));
                        }
                    }
                }
                lemma_kv_map_contains(s0, key@);
                lemma_kv_map_insert(s0, i as int, key@, value@);
            }
            self.entries.insert(i, (key.to_owned(), Dirmark::with_value(value)));
            proof {
                assert(self@ =~= s0.insert(i as int, (key@, value@)));
                assert forall|a: int, b: int| 0 <= a < b < self@.len() implies key_lt(
                    (#[trigger] self@[a]).0,
                    (#[trigger] self@[b]).0,
                ) by {
                    let t = s0.insert(i as int, (key@, value@));
                    if b < i {
                        assert(t[a] == s0[a] && t[b] == s0[b]);
                    } else if a < i && b == i {
                        assert(t[a] == s0[a]);
                    } else if a < i && b > i {
                        assert(t[a] == s0[a] && t[b] == s0[b - 1]);
                        if b - 1 == a {
                        } else {
                            assert(key_lt(s0[a].0, s0[b - 1].0));
                        }
                    } else if a == i {
                        assert(t[b] == s0[b - 1]);
                        if b - 1 > i {
                            assert(key_lt(s0[i as int].0, s0[b - 1].0));
                            lemma_key_lt_trans(key@, s0[i as int].0, s0[b - 1].0);
                        }
                    } else {
                        assert(t[a] == s0[a - 1] && t[b] == s0[b - 1]);
                    }
                }
            }
            None
        }
    }

    /// Inserts at the key joined from `key`'s segments.
    pub fn insert(&mut self, key: &Vec<String>, value: String) -> (r: Option<Dirmark>)
        requires
            old(self).wf(),
        ensures
            final(self).wf(),
            final(self).as_map() == old(self).as_map().insert(joined(key.deep_view()), value@),
            match r {
                Some(d) => old(self).as_map().contains_key(joined(key.deep_view())) && d.path@
                    == old(self).as_map()[joined(key.deep_view())],
                None => !old(self).as_map().contains_key(joined(key.deep_view())),
            },
    {
        let k = join_segments(key);
        self.insert_at(k.as_str(), value)
    }

    /// Looks the record up at the composite key itself.
    pub fn get_at(&self, key: &str) -> (r: Option<&Dirmark>)
        requires
            self.wf(),
        ensures
            match r {
                Some(d) => self.as_map().contains_key(key@) && d.path@ == self.as_map()[key@],
                None => !self.as_map().contains_key(key@),
            },
    {
        match self.find_index(key) {
            Some(i) => {
                proof {
                    lemma_sorted_unique(self@, i as int);
                    lemma_kv_map_get(self@, i as int);
                    assert(self@[i as int] == (self.entries@[i as int].0@, self.entries@[i as int].1.path@));
                }
                Some(&self.entries[i].1)
            },
            None => {
                proof {
                    lemma_kv_map_contains(self@, key@);
                }
                None
            },
        }
    }

    /// Looks up at the key joined from `key`'s segments.
    pub fn get(&self, key: &Vec<String>) -> (r: Option<&Dirmark>)
        requires
            self.wf(),
        ensures
            match r {
                Some(d) => self.as_map().contains_key(joined(key.deep_view())) && d.path@
                    == self.as_map()[joined(key.deep_view())],
                None => !self.as_map().contains_key(joined(key.deep_view())),
            },
    {
        let k = join_segments(key);
        self.get_at(k.as_str())
    }

    /// The entries in ascending key order.
    pub fn get_all(&self) -> (r: &Vec<(String, Dirmark)>)
        requires
            self.wf(),
        ensures
            r@.len() == self@.len(),
            forall|i: int|
                0 <= i < self@.len() ==> (#[trigger] r@[i]).0@ == self@[i].0 && r@[i].1.path@
                    == self@[i].1,
            forall|i: int, j: int|
                0 <= i < j < self@.len() ==> key_lt((#[trigger] r@[i]).0@, (#[trigger] r@[j]).0@),
    {
        proof {
            assert forall|i: int| 0 <= i < self@.len() implies (#[trigger] self.entries@[i]).0@
                == self@[i].0 && self.entries@[i].1.path@ == self@[i].1 by {
                assert(self@[i] == (self.entries@[i].0@, self.entries@[i].1.path@));
            }
        }
        &self.entries
    }

    /// Removes the entry at the composite key itself, returning the removed
    /// record if the key was present.
    pub fn delete_at(&mut self, key: &str) -> (r: Option<Dirmark>)
        requires
            old(self).wf(),
        ensures
            final(self).wf(),
            final(self).as_map() == old(self).as_map().remove(key@),
            match r {
                Some(d) => old(self).as_map().contains_key(key@) && d.path@
                    == old(self).as_map()[key@],
                None => !old(self).as_map().contains_key(key@) && final(self)@ == old(self)@,
            },
    {
        let ghost s0 = self@;
        match self.find_index(key) {
            Some(i) => {
                proof {
                    lemma_sorted_unique(s0, i as int);
                    lemma_kv_map_get(s0, i as int);
                    lemma_kv_map_remove(s0, i as int);
                }
                let e = self.entries.remove(i);
                proof {
                    assert(self@ =~= s0.remove(i as int));
                    assert forall|a: int, b: int| 0 <= a < b < self@.len() implies key_lt(
                        (#[trigger] self@[a]).0,
                        (#[trigger] self@[b]).0,
                    ) by {
                        let t = s0.remove(i as int);
                        if b < i {
                            assert(t[a] == s0[a] && t[b] == s0[b]);
                        } else if a < i {
                            assert(t[a] == s0[a] && t[b] == s0[b + 1]);
                        } else {
                            assert(t[a] == s0[a + 1] && t[b] == s0[b + 1]);
                        }
                    }
                }
                Some(e.1)
            },
            None => {
                proof {
                    lemma_kv_map_contains(s0, key@);
                    assert(kv_map(s0).remove(key@) =~= kv_map(s0));
                }
                None
            },
        }
    }

    /// Removes at the key joined from `key`'s segments.
    pub fn delete(&mut self, key: &Vec<String>) -> (r: Option<Dirmark>)
        requires
            old(self).wf(),
        ensures
            final(self).wf(),
            final(self).as_map() == old(self).as_map().remove(joined(key.deep_view())),
            match r {
                Some(d) => old(self).as_map().contains_key(joined(key.deep_view())) && d.path@
                    == old(self).as_map()[joined(key.deep_view())],
                None => !old(self).as_map().contains_key(joined(key.deep_view())) && final(self)@
                    == old(self)@,
            },
    {
        let k = join_segments(key);
        self.delete_at(k.as_str())
    }
}

} // verus!

verus! {

/// After inserting path `p` at segments `ss`, looking the same segments up
/// finds exactly `p`, as long as nothing intervenes.
pub proof fn lemma_insert_then_get(m: Map<Seq<char>, Seq<char>>, ss: Seq<Seq<char>>, p: Seq<char>)
    requires
        ss.len() > 0,
    ensures
        m.insert(joined(ss), p).contains_key(joined(ss)),
        m.insert(joined(ss), p)[joined(ss)] == p,
{
}

/// Inserting at the same segments twice: the second insert sees the first
/// path as the previous value, and a lookup then yields the second path.
pub proof fn lemma_insert_overwrites(
    m: Map<Seq<char>, Seq<char>>,
    ss: Seq<Seq<char>>,
    p1: Seq<char>,
    p2: Seq<char>,
)
    requires
        ss.len() > 0,
    ensures
        m.insert(joined(ss), p1)[joined(ss)] == p1,
        m.insert(joined(ss), p1).insert(joined(ss), p2)[joined(ss)] == p2,
{
}

/// Deleting right after inserting removes exactly the inserted path: the
/// delete yields `p`, and a subsequent lookup finds nothing.
pub proof fn lemma_insert_then_delete(m: Map<Seq<char>, Seq<char>>, ss: Seq<Seq<char>>, p: Seq<char>)
    requires
        ss.len() > 0,
    ensures
        m.insert(joined(ss), p)[joined(ss)] == p,
        !m.insert(joined(ss), p).remove(joined(ss)).contains_key(joined(ss)),
{
}

/// Deleting at segments that were never inserted leaves the store unchanged.
pub proof fn lemma_delete_absent(m: Map<Seq<char>, Seq<char>>, ss: Seq<Seq<char>>)
    requires
        ss.len() > 0,
        !m.contains_key(joined(ss)),
    ensures
        m.remove(joined(ss)) == m,
{
    assert(m.remove(joined(ss)) =~= m);
}

} // verus!

verus! {

impl Default for Dirmark {
    /// An empty path, as the record's default.
    fn default() -> (r: Self)
        ensures
            r.path@ == Seq::<char>::empty(),
    {
        Dirmark { path: String::new() }
    }
}

impl Default for Dirmarks {
    /// The empty store.
    fn default() -> (r: Self)
        ensures
            r.wf(),
            r@.len() == 0,
            r.as_map() == Map::<Seq<char>, Seq<char>>::empty(),
    {
        Dirmarks::new()
    }
}

} // verus!
