//! The in-flight register: the keys whose encodes are running, so that
//! concurrent identical requests collapse onto a single encode.

use vstd::prelude::*;
use crate::cache::{key_eq, CacheKey, CacheKeyView};

verus! {

/// Whether some registered key equals `k`.
pub open spec fn pending(s: Seq<CacheKeyView>, k: CacheKeyView) -> bool {
    exists|i: int| 0 <= i < s.len() && s[i] == k
}

/// `s` with its first occurrence of `k` removed; `s` itself when there
/// is none.
pub open spec fn without_first(s: Seq<CacheKeyView>, k: CacheKeyView) -> Seq<CacheKeyView>
    decreases s.len(),
{
    if s.len() == 0 {
        Seq::empty()
    } else if s[0] == k {
        s.drop_first()
    } else {
        seq![s[0]] + without_first(s.drop_first(), k)
    }
}

/// When no element is `k`, removal changes nothing.
proof fn lemma_without_first_absent(s: Seq<CacheKeyView>, k: CacheKeyView)
    requires
        forall|i: int| 0 <= i < s.len() ==> s[i] != k,
    ensures
        without_first(s, k) == s,
    decreases s.len(),
{
    if s.len() > 0 {
        assert(forall|i: int|
            0 <= i < s.drop_first().len() ==> s.drop_first()[i] == s[i + 1]);
        lemma_without_first_absent(s.drop_first(), k);
        assert(seq![s[0]] + s.drop_first() =~= s);
    }
}

/// Removing the first occurrence, found at `i`, cuts exactly that slot.
proof fn lemma_without_first_at(s: Seq<CacheKeyView>, k: CacheKeyView, i: int)
    requires
        0 <= i < s.len(),
        s[i] == k,
        forall|j: int| 0 <= j < i ==> s[j] != k,
    ensures
        without_first(s, k) == s.take(i) + s.skip(i + 1),
    decreases s.len(),
{
    if i == 0 {
        assert(without_first(s, k) =~= s.take(0) + s.skip(1));
    } else {
        assert(s[0] != k);
        assert(forall|j: int|
            0 <= j < s.drop_first().len() ==> s.drop_first()[j] == s[j + 1]);
        lemma_without_first_at(s.drop_first(), k, i - 1);
        assert(seq![s[0]] + (s.drop_first().take(i - 1) + s.drop_first().skip(i)) =~= s.take(i)
            + s.skip(i + 1));
    }
}

/// The keys whose encodes are running. A request registers its key
/// before encoding and unregisters it after; one that finds its key
/// already registered awaits that encode instead of starting another.
pub struct InFlight {
    keys: Vec<CacheKey>,
}

impl View for InFlight {
    type V = Seq<CacheKeyView>;

    closed spec fn view(&self) -> Seq<CacheKeyView> {
        self.keys@.map_values(|k: CacheKey| k@)
    }
}

impl InFlight {
    /// No encode is running.
    pub fn new() -> (r: InFlight)
        ensures
            r@ == Seq::<CacheKeyView>::empty(),
    {
        let r = InFlight { keys: Vec::new() };
        proof {
            assert(r@ =~= Seq::<CacheKeyView>::empty());
        }
        r
    }

    /// Whether an encode of `key` is running.
    pub fn is_pending(&self, key: &CacheKey) -> (r: bool)
        ensures
            r == pending(self@, key@),
    {
        let mut i: usize = 0;
        while i < self.keys.len()
            invariant
                i <= self.keys.len(),
                forall|j: int| 0 <= j < i ==> self@[j] != key@,
            decreases self.keys.len() - i,
        {
            if key_eq(&self.keys[i], key) {
                proof {
                    assert(self@[i as int] == key@);
                }
                return true;
            }
            i = i + 1;
        }
        false
    }

    /// Register `key` unless an identical encode is already running:
    /// the caller owns the encode exactly when this returns true.
    pub fn begin(&mut self, key: &CacheKey) -> (r: bool)
        ensures
            r == !pending(old(self)@, key@),
            r ==> final(self)@ == old(self)@.push(key@),
            !r ==> final(self)@ == old(self)@,
    {
        let ghost s: Seq<CacheKeyView> = self@;
        let mut i: usize = 0;
        while i < self.keys.len()
            invariant
                i <= self.keys.len(),
                *self == *old(self),
                s == old(self)@,
                s.len() == self.keys@.len(),
                forall|j: int| 0 <= j < i ==> s[j] != key@,
            decreases self.keys.len() - i,
        {
            if key_eq(&self.keys[i], key) {
                proof {
                    assert(s[i as int] == key@);
                }
                return false;
            }
            i = i + 1;
        }
        let copy: CacheKey = key.duplicate();
        self.keys.push(copy);
        proof {
            assert(self@ =~= s.push(key@));
        }
        true
    }

    /// Unregister `key` once its encode has settled.
    pub fn end(&mut self, key: &CacheKey)
        ensures
            final(self)@ == without_first(old(self)@, key@),
    {
        let ghost s: Seq<CacheKeyView> = self@;
        let mut i: usize = 0;
        while i < self.keys.len()
            invariant
                i <= self.keys.len(),
                *self == *old(self),
                s == old(self)@,
                s.len() == self.keys@.len(),
                forall|j: int| 0 <= j < i ==> s[j] != key@,
            decreases self.keys.len() - i,
        {
            if key_eq(&self.keys[i], key) {
                proof {
                    assert(s[i as int] == key@);
                    lemma_without_first_at(s, key@, i as int);
                }
                self.keys.remove(i);
                proof {
                    assert(self@ =~= s.take(i as int) + s.skip(i + 1));
                }
                return ;
            }
            i = i + 1;
        }
        proof {
            lemma_without_first_absent(s, key@);
        }
    }
}

} // verus!
