use vstd::prelude::*;
use vstd::slice::slice_to_vec;

verus! {

/// `std::time::Instant`, a reading of the monotonic clock, carried through
/// unopened.
#[verifier::external_type_specification]
#[verifier::external_body]
pub struct ExInstant(std::time::Instant);

/// Relies on `Instant::now`: a reading of the monotonic clock.
#[verifier::external_body]
fn clock_start() -> (r: std::time::Instant) {
    std::time::Instant::now()
}

/// Relies on `Instant::elapsed` and `Duration::as_millis`: whole milliseconds
/// since `epoch`; what it returns depends on the clock alone.
#[verifier::external_body]
fn millis_since(epoch: &std::time::Instant) -> (r: u128) {
    epoch.elapsed().as_millis()
}

/// A stored value, with the time it was written and its time to live.
pub struct Item {
    pub value: Vec<u8>,
    /// Milliseconds on the store's clock when the value was written.
    pub created: u128,
    /// Time to live in milliseconds; 0 means that the value never expires.
    pub expires: usize,
}

/// The mathematical model of an [`Item`].
pub struct Entry {
    pub value: Seq<u8>,
    pub created: u128,
    pub expires: nat,
}

impl View for Item {
    type V = Entry;

    open spec fn view(&self) -> Entry {
        Entry { value: self.value@, created: self.created, expires: self.expires as nat }
    }
}

/// The entry was written more than its time to live before `now`.
pub open spec fn is_expired(e: Entry, now: u128) -> bool {
    e.expires > 0 && now >= e.created && now - e.created > e.expires
}

/// What a read of `key` at time `now` finds in a store whose contents are `m`.
pub open spec fn lookup(m: Map<Seq<u8>, Entry>, key: Seq<u8>, now: u128) -> Option<Entry> {
    if m.contains_key(key) && !is_expired(m[key], now) {
        Some(m[key])
    } else {
        None
    }
}

/// A key/value store with a time to live on each key, expired lazily on read.
pub struct Storage {
    pub storage: Vec<(Vec<u8>, Item)>,
    epoch: std::time::Instant,
}

impl View for Storage {
    type V = Map<Seq<u8>, Entry>;

    closed spec fn view(&self) -> Map<Seq<u8>, Entry> {
        Map::new(
            |k: Seq<u8>| exists|i: int| 0 <= i < self.storage@.len() && #[trigger] self.storage@[i].0@ == k,
            |k: Seq<u8>|
                self.storage@[choose|i: int| 0 <= i < self.storage@.len() && #[trigger] self.storage@[i].0@ == k].1@,
        )
    }
}

impl Storage {
    /// No key is held twice.
    pub closed spec fn wf(&self) -> bool {
        forall|i: int, j: int|
            0 <= i < j < self.storage@.len() ==> #[trigger] self.storage@[i].0@ != #[trigger] self.storage@[j].0@
    }

    proof fn lemma_view_at(&self, i: int)
        requires
            self.wf(),
            0 <= i < self.storage@.len(),
        ensures
            self@.contains_key(self.storage@[i].0@),
            self@[self.storage@[i].0@] == self.storage@[i].1@,
    {
        let k = self.storage@[i].0@;
        assert(0 <= i < self.storage@.len() && self.storage@[i].0@ == k);
        let j = choose|j: int| 0 <= j < self.storage@.len() && #[trigger] self.storage@[j].0@ == k;
        assert(i == j) by {
            if i < j {
                assert(self.storage@[i].0@ != self.storage@[j].0@);
            } else if j < i {
                assert(self.storage@[j].0@ != self.storage@[i].0@);
            }
        }
    }

    /// An empty store.
    pub fn new() -> (r: Self)
        ensures
            r.wf(),
            r@ == Map::<Seq<u8>, Entry>::empty(),
    {
        let r = Storage { storage: Vec::new(), epoch: clock_start() };
        assert(r@ =~= Map::<Seq<u8>, Entry>::empty());
        r
    }

    /// Milliseconds on this store's clock.
    pub fn now(&self) -> (r: u128) {
        millis_since(&self.epoch)
    }

    /// The position of `key`, if the store holds it.
    fn find(&self, key: &[u8]) -> (r: Option<usize>)
        ensures
            match r {
                Some(i) => i < self.storage@.len() && self.storage@[i as int].0@ == key@,
                None => forall|i: int| 0 <= i < self.storage@.len() ==> #[trigger] self.storage@[i].0@ != key@,
            },
    {
        let mut i: usize = 0;
        while i < self.storage.len()
            invariant
                i <= self.storage@.len(),
                forall|j: int| 0 <= j < i ==> #[trigger] self.storage@[j].0@ != key@,
            decreases self.storage.len() - i,
        {
            if bytes_eq(&self.storage[i].0, key) {
                return Some(i);
            }
            i = i + 1;
        }
        None
    }

    /// Writes `value` under `key` at time `now`, replacing what was there.
    pub fn set_at(&mut self, key: &[u8], value: &[u8], expires: usize, now: u128)
        requires
            old(self).wf(),
        ensures
            final(self).wf(),
            final(self)@ == old(self)@.insert(
                key@,
                Entry { value: value@, created: now, expires: expires as nat },
            ),
    {
        let item = Item { value: slice_to_vec(value), created: now, expires };
        let ghost e = item@;
        match self.find(key) {
            Some(i) => {
                self.storage.set(i, (slice_to_vec(key), item));
                proof {
                    let s = *self;
                    let o = *old(self);
                    assert(s.wf()) by {
                        assert forall|a: int, b: int| 0 <= a < b < s.storage@.len() implies
                            #[trigger] s.storage@[a].0@ != #[trigger] s.storage@[b].0@ by {
                            assert(o.storage@[a].0@ != o.storage@[b].0@);
                        }
                    }
                    let m = o@.insert(key@, e);
                    assert forall|k: Seq<u8>| #[trigger] s@.contains_key(k) == m.contains_key(k) by {
                        if m.contains_key(k) && k != key@ {
                            let j = choose|j: int| 0 <= j < o.storage@.len() && #[trigger] o.storage@[j].0@ == k;
                            assert(s.storage@[j].0@ == k);
                        }
                        if s@.contains_key(k) && k != key@ {
                            let j = choose|j: int| 0 <= j < s.storage@.len() && #[trigger] s.storage@[j].0@ == k;
                            assert(o.storage@[j].0@ == k);
                        }
                        if k == key@ {
                            s.lemma_view_at(i as int);
                        }
                    }
                    assert forall|k: Seq<u8>| #[trigger] s@.contains_key(k) implies s@[k] == m[k] by {
                        if k == key@ {
                            s.lemma_view_at(i as int);
                        } else {
                            let j = choose|j: int| 0 <= j < o.storage@.len() && #[trigger] o.storage@[j].0@ == k;
                            o.lemma_view_at(j);
                            s.lemma_view_at(j);
                        }
                    }
                    assert(s@ =~= m);
                }
            },
            None => {
                self.storage.push((slice_to_vec(key), item));
                proof {
                    let s = *self;
                    let o = *old(self);
                    let n = o.storage@.len() as int;
                    assert(s.wf()) by {
                        assert forall|a: int, b: int| 0 <= a < b < s.storage@.len() implies
                            #[trigger] s.storage@[a].0@ != #[trigger] s.storage@[b].0@ by {
                            if b < n {
                                assert(o.storage@[a].0@ != o.storage@[b].0@);
                            } else {
                                assert(o.storage@[a].0@ != key@);
                            }
                        }
                    }
                    let m = o@.insert(key@, e);
                    assert forall|k: Seq<u8>| #[trigger] s@.contains_key(k) == m.contains_key(k) by {
                        if m.contains_key(k) && k != key@ {
                            let j = choose|j: int| 0 <= j < o.storage@.len() && #[trigger] o.storage@[j].0@ == k;
                            assert(s.storage@[j].0@ == k);
                        }
                        if s@.contains_key(k) && k != key@ {
                            let j = choose|j: int| 0 <= j < s.storage@.len() && #[trigger] s.storage@[j].0@ == k;
                            assert(o.storage@[j].0@ == k);
                        }
                        if k == key@ {
                            s.lemma_view_at(n);
                        }
                    }
                    assert forall|k: Seq<u8>| #[trigger] s@.contains_key(k) implies s@[k] == m[k] by {
                        if k == key@ {
                            s.lemma_view_at(n);
                        } else {
                            let j = choose|j: int| 0 <= j < o.storage@.len() && #[trigger] o.storage@[j].0@ == k;
                            o.lemma_view_at(j);
                            s.lemma_view_at(j);
                        }
                    }
                    assert(s@ =~= m);
                }
            },
        }
    }
}

impl Storage {
    /// Reads `key` at time `now`: its item, unless it is absent or expired.
    pub fn get_at(&self, key: &[u8], now: u128) -> (r: Option<&Item>)
        requires
            self.wf(),
        ensures
            match lookup(self@, key@, now) {
                None => r is None,
                Some(e) => r is Some && r->Some_0@ == e,
            },
    {
        match self.find(key) {
            None => None,
            Some(i) => {
                proof {
                    self.lemma_view_at(i as int);
                }
                let item = &self.storage[i].1;
                if item.expires > 0 && now >= item.created && now - item.created > item.expires as u128 {
                    None
                } else {
                    Some(item)
                }
            },
        }
    }

    /// Writes `value` under `key` now, replacing what was there.
    pub fn set(&mut self, key: &[u8], value: &[u8], expires: usize)
        requires
            old(self).wf(),
        ensures
            final(self).wf(),
            final(self)@ == old(self)@.insert(key@, final(self)@[key@]),
            final(self)@[key@].value == value@,
            final(self)@[key@].expires == expires,
    {
        let now = self.now();
        self.set_at(key, value, expires, now);
    }

    /// Reads `key` now: its item, unless it is absent or expired.
    pub fn get(&self, key: &[u8]) -> (r: Option<&Item>)
        requires
            self.wf(),
        ensures
            r matches Some(item) ==> self@.contains_key(key@) && item@ == self@[key@],
            !self@.contains_key(key@) ==> r is None,
            self@.contains_key(key@) && self@[key@].expires == 0 ==> r is Some,
    {
        let now = self.now();
        self.get_at(key, now)
    }
}

impl Default for Storage {
    fn default() -> (r: Self)
        ensures
            r.wf(),
            r@ == Map::<Seq<u8>, Entry>::empty(),
    {
        Storage::new()
    }
}

/// The two byte strings are equal.
fn bytes_eq(a: &Vec<u8>, b: &[u8]) -> (r: bool)
    ensures
        r <==> a@ == b@,
{
    if a.len() != b.len() {
        return false;
    }
    let mut i: usize = 0;
    while i < a.len()
        invariant
            a@.len() == b@.len(),
            i <= a@.len(),
            forall|j: int| 0 <= j < i ==> a@[j] == b@[j],
        decreases a.len() - i,
    {
        if a[i] != b[i] {
            return false;
        }
        i = i + 1;
    }
    assert(a@ =~= b@);
    true
}

} // verus!
