//! The result cache: a bounded memo of encoded outputs, keyed by the
//! encode's identity, evicting the oldest-inserted entry first.

use vstd::prelude::*;

verus! {

/// Identity of one encoded result: folder scope, the first and last
/// selected timestamps, the frame rate, and the encoder-argument
/// override.
pub struct CacheKey {
    pub folder: String,
    pub start: i64,
    pub end: i64,
    pub fps: usize,
    pub args_override: Option<Vec<String>>,
}

/// The mathematical content of a `CacheKey`.
pub struct CacheKeyView {
    pub folder: Seq<char>,
    pub start: int,
    pub end: int,
    pub fps: int,
    pub args_override: Option<Seq<Seq<char>>>,
}

impl View for CacheKey {
    type V = CacheKeyView;

    open spec fn view(&self) -> CacheKeyView {
        CacheKeyView {
            folder: self.folder@,
            start: self.start as int,
            end: self.end as int,
            fps: self.fps as int,
            args_override: match self.args_override {
                Some(v) => Some(v@.map_values(|s: String| s@)),
                None => None,
            },
        }
    }
}

/// A value-preserving copy of a string vector.
pub(crate) fn clone_strings(v: &Vec<String>) -> (r: Vec<String>)
    ensures
        r@.map_values(|s: String| s@) == v@.map_values(|s: String| s@),
{
    let mut r: Vec<String> = Vec::new();
    let mut i: usize = 0;
    while i < v.len()
        invariant
            i <= v.len(),
            r@.map_values(|s: String| s@) == v@.map_values(|s: String| s@).take(i as int),
        decreases v.len() - i,
    {
        let s: String = v[i].clone();
        proof {
            assert(r@.push(s).map_values(|x: String| x@) =~= r@.map_values(|x: String| x@).push(
                s@,
            ));
            assert(v@.map_values(|x: String| x@).take(i + 1) =~= v@.map_values(
                |x: String| x@,
            ).take(i as int).push(s@));
        }
        r.push(s);
        i = i + 1;
    }
    proof {
        assert(v@.map_values(|s: String| s@).take(v@.len() as int) =~= v@.map_values(
            |s: String| s@,
        ));
    }
    r
}

/// String-vector equality by contents.
fn strings_equal(a: &Vec<String>, b: &Vec<String>) -> (r: bool)
    ensures
        r == (a@.map_values(|s: String| s@) == b@.map_values(|s: String| s@)),
{
    let ghost av: Seq<Seq<char>> = a@.map_values(|s: String| s@);
    let ghost bv: Seq<Seq<char>> = b@.map_values(|s: String| s@);
    if a.len() != b.len() {
        proof {
            assert(av.len() != bv.len());
        }
        return false;
    }
    let mut i: usize = 0;
    while i < a.len()
        invariant
            i <= a.len(),
            a@.len() == b@.len(),
            av == a@.map_values(|s: String| s@),
            bv == b@.map_values(|s: String| s@),
            forall|j: int| 0 <= j < i ==> av[j] == bv[j],
        decreases a.len() - i,
    {
        if !(a[i] == b[i]) {
            proof {
                assert(av[i as int] != bv[i as int]);
            }
            return false;
        }
        i = i + 1;
    }
    proof {
        assert(av =~= bv);
    }
    true
}

impl CacheKey {
    /// A value-preserving copy.
    pub fn duplicate(&self) -> (r: CacheKey)
        ensures
            r@ == self@,
    {
        CacheKey {
            folder: self.folder.clone(),
            start: self.start,
            end: self.end,
            fps: self.fps,
            args_override: match &self.args_override {
                Some(v) => Some(clone_strings(v)),
                None => None,
            },
        }
    }
}

/// Key equality by contents.
pub fn key_eq(a: &CacheKey, b: &CacheKey) -> (r: bool)
    ensures
        r == (a@ == b@),
{
    if a.start != b.start || a.end != b.end || a.fps != b.fps {
        return false;
    }
    if !(a.folder == b.folder) {
        return false;
    }
    match (&a.args_override, &b.args_override) {
        (None, None) => true,
        (Some(x), Some(y)) => strings_equal(x, y),
        _ => false,
    }
}

/// One stored entry: a key and the encoded bytes.
pub type CacheEntryView = (CacheKeyView, Seq<u8>);

/// No key occurs twice.
pub open spec fn distinct_keys(cv: Seq<CacheEntryView>) -> bool {
    forall|i: int, j: int| 0 <= i < j < cv.len() ==> cv[i].0 != cv[j].0
}

/// The bytes stored under `k`, scanning from the oldest entry.
pub open spec fn cache_lookup(cv: Seq<CacheEntryView>, k: CacheKeyView) -> Option<Seq<u8>>
    decreases cv.len(),
{
    if cv.len() == 0 {
        None
    } else if cv[0].0 == k {
        Some(cv[0].1)
    } else {
        cache_lookup(cv.drop_first(), k)
    }
}

/// `cv` with the bytes under `k` replaced, order kept.
pub open spec fn cache_update(cv: Seq<CacheEntryView>, k: CacheKeyView, v: Seq<u8>) -> Seq<
    CacheEntryView,
>
    decreases cv.len(),
{
    if cv.len() == 0 {
        Seq::empty()
    } else if cv[0].0 == k {
        seq![(k, v)] + cv.drop_first()
    } else {
        seq![cv[0]] + cache_update(cv.drop_first(), k, v)
    }
}

/// What storing does: an existing key keeps its place and gets the new
/// bytes; a fresh key is appended, evicting the oldest entry first when
/// the cache is full.
pub open spec fn cache_set(
    cv: Seq<CacheEntryView>,
    size: int,
    k: CacheKeyView,
    v: Seq<u8>,
) -> Seq<CacheEntryView> {
    if cache_lookup(cv, k) is Some {
        cache_update(cv, k, v)
    } else if cv.len() < size {
        cv.push((k, v))
    } else {
        cv.drop_first().push((k, v))
    }
}

/// When no entry carries `k`, the lookup yields nothing.
proof fn lemma_lookup_absent(cv: Seq<CacheEntryView>, k: CacheKeyView)
    requires
        forall|i: int| 0 <= i < cv.len() ==> cv[i].0 != k,
    ensures
        cache_lookup(cv, k) is None,
    decreases cv.len(),
{
    if cv.len() > 0 {
        assert(forall|i: int|
            0 <= i < cv.drop_first().len() ==> cv.drop_first()[i] == cv[i + 1]);
        lemma_lookup_absent(cv.drop_first(), k);
    }
}

/// With distinct keys, the lookup of entry `i`'s key yields its bytes.
proof fn lemma_lookup_at(cv: Seq<CacheEntryView>, i: int)
    requires
        distinct_keys(cv),
        0 <= i < cv.len(),
    ensures
        cache_lookup(cv, cv[i].0) == Some(cv[i].1),
    decreases cv.len(),
{
    if i == 0 {
    } else {
        assert(cv[0].0 != cv[i].0);
        assert(forall|a: int, b: int|
            0 <= a < b < cv.drop_first().len() ==> cv.drop_first()[a] == cv[a + 1]
                && cv.drop_first()[b] == cv[b + 1]);
        lemma_lookup_at(cv.drop_first(), i - 1);
    }
}

/// A lookup that yields bytes names the key of some entry.
proof fn lemma_lookup_some_index(cv: Seq<CacheEntryView>, k: CacheKeyView)
    requires
        cache_lookup(cv, k) is Some,
    ensures
        exists|i: int| 0 <= i < cv.len() && cv[i].0 == k && cv[i].1 == cache_lookup(cv, k)->Some_0,
    decreases cv.len(),
{
    if cv.len() > 0 && cv[0].0 != k {
        lemma_lookup_some_index(cv.drop_first(), k);
        let j = choose|j: int|
            0 <= j < cv.drop_first().len() && cv.drop_first()[j].0 == k && cv.drop_first()[j].1
                == cache_lookup(cv.drop_first(), k)->Some_0;
        assert(cv[j + 1].0 == k && cv[j + 1].1 == cache_lookup(cv, k)->Some_0);
    }
}

/// Replacing under the key at position `i` rewrites exactly that entry.
proof fn lemma_update_at(cv: Seq<CacheEntryView>, k: CacheKeyView, v: Seq<u8>, i: int)
    requires
        0 <= i < cv.len(),
        cv[i].0 == k,
        forall|j: int| 0 <= j < i ==> cv[j].0 != k,
    ensures
        cache_update(cv, k, v) == cv.update(i, (k, v)),
    decreases cv.len(),
{
    if i == 0 {
        assert(cache_update(cv, k, v) =~= cv.update(0, (k, v)));
    } else {
        assert(cv[0].0 != k);
        assert(forall|j: int|
            0 <= j < cv.drop_first().len() ==> cv.drop_first()[j] == cv[j + 1]);
        lemma_update_at(cv.drop_first(), k, v, i - 1);
        assert(seq![cv[0]] + cv.drop_first().update(i - 1, (k, v)) =~= cv.update(i, (k, v)));
    }
}

/// Bounded memo of encoded outputs: at most `size` entries, keys unique,
/// the oldest-inserted entry evicted first.
pub struct VideoCache {
    entries: Vec<(CacheKey, Vec<u8>)>,
    size: usize,
}

impl View for VideoCache {
    type V = Seq<CacheEntryView>;

    closed spec fn view(&self) -> Seq<CacheEntryView> {
        self.entries@.map_values(|e: (CacheKey, Vec<u8>)| (e.0@, e.1@))
    }
}

impl VideoCache {
    /// Capacity, fixed at construction.
    pub closed spec fn spec_size(&self) -> int {
        self.size as int
    }

    /// The cache's invariant: bounded, keys unique.
    pub open spec fn wf(&self) -> bool {
        self.spec_size() >= 1 && self@.len() <= self.spec_size() && distinct_keys(self@)
    }

    /// An empty cache of fixed capacity `size`.
    pub fn new(size: usize) -> (r: VideoCache)
        requires
            size >= 1,
        ensures
            r.wf(),
            r@ == Seq::<CacheEntryView>::empty(),
            r.spec_size() == size,
    {
        let r = VideoCache { entries: Vec::new(), size };
        proof {
            assert(r@ =~= Seq::<CacheEntryView>::empty());
        }
        r
    }

    /// Point lookup without side effect.
    pub fn get(&self, key: &CacheKey) -> (r: Option<&Vec<u8>>)
        ensures
            match r {
                Some(v) => cache_lookup(self@, key@) == Some(v@),
                None => cache_lookup(self@, key@) is None,
            },
    {
        let mut i: usize = 0;
        while i < self.entries.len()
            invariant
                i <= self.entries.len(),
                forall|j: int| 0 <= j < i ==> self@[j].0 != key@,
            decreases self.entries.len() - i,
        {
            if key_eq(&self.entries[i].0, &key) {
                proof {
                    assert(self@[i as int].0 == key@);
                    lemma_lookup_first_match(self@, key@, i as int);
                }
                return Some(&self.entries[i].1);
            }
            i = i + 1;
        }
        proof {
            lemma_lookup_absent(self@, key@);
        }
        None
    }

    /// Store `value` under `key`: replace in place when the key is
    /// present; otherwise append, evicting the oldest entry when full.
    pub fn set(&mut self, key: CacheKey, value: Vec<u8>)
        requires
            old(self).wf(),
        ensures
            final(self).wf(),
            final(self)@ == cache_set(old(self)@, old(self).spec_size(), key@, value@),
            final(self).spec_size() == old(self).spec_size(),
    {
        let ghost cv: Seq<CacheEntryView> = self@;
        let mut i: usize = 0;
        while i < self.entries.len()
            invariant
                i <= self.entries.len(),
                *self == *old(self),
                cv == old(self)@,
                cv.len() == self.entries@.len(),
                old(self).wf(),
                forall|j: int| 0 <= j < i ==> cv[j].0 != key@,
            decreases self.entries.len() - i,
        {
            if key_eq(&self.entries[i].0, &key) {
                proof {
                    assert(cv[i as int].0 == key@);
                    lemma_lookup_first_match(cv, key@, i as int);
                    lemma_update_at(cv, key@, value@, i as int);
                }
                self.entries.remove(i);
                self.entries.insert(i, (key, value));
                proof {
                    assert(self@ =~= cv.update(i as int, (key@, value@)));
                    assert forall|a: int, b: int| 0 <= a < b < self@.len() implies self@[a].0
                        != self@[b].0 by {
                        assert(self@[a].0 == cv[a].0);
                        assert(self@[b].0 == cv[b].0);
                    }
                }
                return ;
            }
            i = i + 1;
        }
        proof {
            lemma_lookup_absent(cv, key@);
        }
        let evicting: bool = self.entries.len() >= self.size;
        if evicting {
            self.entries.remove(0);
            proof {
                assert(self@ =~= cv.drop_first());
            }
        }
        let ghost cw: Seq<CacheEntryView> = self@;
        self.entries.push((key, value));
        proof {
            assert(self@ =~= cw.push((key@, value@)));
            if evicting {
                assert(self@ =~= cv.drop_first().push((key@, value@)));
            } else {
                assert(self@ =~= cv.push((key@, value@)));
            }
            assert forall|a: int, b: int| 0 <= a < b < self@.len() implies self@[a].0
                != self@[b].0 by {
                if b == self@.len() - 1 {
                    assert(self@[b].0 == key@);
                    if evicting {
                        assert(self@[a] == cv[a + 1]);
                    } else {
                        assert(self@[a] == cv[a]);
                    }
                } else {
                    if evicting {
                        assert(self@[a] == cv[a + 1] && self@[b] == cv[b + 1]);
                    } else {
                        assert(self@[a] == cv[a] && self@[b] == cv[b]);
                    }
                }
            }
        }
    }
}

/// With distinct keys seen so far, the first matching position decides
/// the lookup.
proof fn lemma_lookup_first_match(cv: Seq<CacheEntryView>, k: CacheKeyView, i: int)
    requires
        0 <= i < cv.len(),
        cv[i].0 == k,
        forall|j: int| 0 <= j < i ==> cv[j].0 != k,
    ensures
        cache_lookup(cv, k) == Some(cv[i].1),
    decreases cv.len(),
{
    if i > 0 {
        assert(forall|j: int|
            0 <= j < cv.drop_first().len() ==> cv.drop_first()[j] == cv[j + 1]);
        lemma_lookup_first_match(cv.drop_first(), k, i - 1);
    }
}

/// Law: after storing, a lookup of the same key yields exactly the
/// stored bytes.
pub proof fn lemma_store_then_hit(
    cv: Seq<CacheEntryView>,
    size: int,
    k: CacheKeyView,
    v: Seq<u8>,
)
    requires
        size >= 1,
        cv.len() <= size,
        distinct_keys(cv),
    ensures
        cache_lookup(cache_set(cv, size, k, v), k) == Some(v),
{
    if cache_lookup(cv, k) is Some {
        lemma_lookup_some_index(cv, k);
        let i = choose|i: int| 0 <= i < cv.len() && cv[i].0 == k && cv[i].1 == cache_lookup(cv, k)->Some_0;
        assert forall|j: int| 0 <= j < i implies cv[j].0 != k by {
            if cv[j].0 == k {
                assert(cv[j].0 != cv[i].0);
            }
        }
        lemma_update_at(cv, k, v, i);
        let cw = cv.update(i, (k, v));
        assert(cw[i].0 == k);
        assert forall|j: int| 0 <= j < i implies cw[j].0 != k by {
            assert(cw[j] == cv[j]);
        }
        lemma_lookup_first_match(cw, k, i);
    } else if cv.len() < size {
        let cw = cv.push((k, v));
        assert(cw[cw.len() - 1].0 == k);
        assert forall|j: int| 0 <= j < cw.len() - 1 implies cw[j].0 != k by {
            assert(cw[j] == cv[j]);
            if cv[j].0 == k {
                lemma_lookup_at(cv, j);
            }
        }
        lemma_lookup_first_match(cw, k, cw.len() - 1);
    } else {
        let cw = cv.drop_first().push((k, v));
        assert(cw[cw.len() - 1].0 == k);
        assert forall|j: int| 0 <= j < cw.len() - 1 implies cw[j].0 != k by {
            assert(cw[j] == cv[j + 1]);
            if cv[j + 1].0 == k {
                lemma_lookup_at(cv, j + 1);
            }
        }
        lemma_lookup_first_match(cw, k, cw.len() - 1);
    }
}

/// Law: storing a fresh key in a full cache evicts exactly the
/// oldest-inserted entry — the new key and every other entry are then
/// found, the evicted key is not.
pub proof fn lemma_fifo_eviction(
    cv: Seq<CacheEntryView>,
    size: int,
    k: CacheKeyView,
    v: Seq<u8>,
)
    requires
        size >= 1,
        cv.len() == size,
        distinct_keys(cv),
        cache_lookup(cv, k) is None,
        k != cv[0].0,
    ensures
        cache_set(cv, size, k, v) == cv.drop_first().push((k, v)),
        cache_lookup(cache_set(cv, size, k, v), k) == Some(v),
        cache_lookup(cache_set(cv, size, k, v), cv[0].0) is None,
        forall|i: int|
            1 <= i < cv.len() ==> cache_lookup(cache_set(cv, size, k, v), #[trigger] cv[i].0)
                == Some(cv[i].1),
{
    let cw = cv.drop_first().push((k, v));
    lemma_store_then_hit(cv, size, k, v);
    assert forall|j: int| 0 <= j < cw.len() implies cw[j].0 != cv[0].0 by {
        if j < cw.len() - 1 {
            assert(cw[j] == cv[j + 1]);
        } else {
            assert(cw[j].0 == k);
        }
    }
    lemma_lookup_absent(cw, cv[0].0);
    assert forall|i: int| 1 <= i < cv.len() implies cache_lookup(cw, #[trigger] cv[i].0) == Some(
        cv[i].1,
    ) by {
        assert(cw[i - 1] == cv[i]);
        assert forall|j: int| 0 <= j < i - 1 implies cw[j].0 != cv[i].0 by {
            assert(cw[j] == cv[j + 1]);
        }
        lemma_lookup_first_match(cw, cv[i].0, i - 1);
    }
}

} // verus!
