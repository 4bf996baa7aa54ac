use vstd::prelude::*;

verus! {

/// The keys of `subs` whose answer may change when the source moves from `prev` to
/// `next`: none when the value is the same, else those equal to the new or the old
/// value, in the order of `subs`.
pub open spec fn selected_changes(subs: Seq<u64>, prev: Option<u64>, next: u64) -> Seq<u64>
    decreases subs.len(),
{
    if subs.len() == 0 {
        seq![]
    } else {
        let rest = selected_changes(subs.drop_last(), prev, next);
        let k = subs.last();
        if prev != Some(next) && (k == next || prev == Some(k)) {
            rest.push(k)
        } else {
            rest
        }
    }
}

/// A signal of "is this key the selected one", kept for many keys at once.
///
/// Each key that asks is remembered; when the source changes only the keys whose
/// answer flips are told, instead of every key.
pub struct Selector {
    value: Option<u64>,
    subs: Vec<u64>,
}

impl Selector {
    pub closed spec fn current(&self) -> Option<u64> {
        self.value
    }

    pub closed spec fn subscribers(&self) -> Seq<u64> {
        self.subs@
    }

    /// Tells whether `key` is the selected value, and remembers `key` for later changes.
    pub fn is_selected(&mut self, key: u64) -> (r: bool)
        ensures
            r == (old(self).current() == Some(key)),
            final(self).current() == old(self).current(),
            old(self).subscribers().contains(key) ==> final(self).subscribers() == old(self).subscribers(),
            !old(self).subscribers().contains(key) ==> final(self).subscribers() == old(self).subscribers().push(key),
    {
        let mut k: usize = 0;
        let mut found = false;
        while k < self.subs.len()
            invariant
                k <= self.subs@.len(),
                found == self.subs@.take(k as int).contains(key),
                *self == *old(self),
            decreases self.subs@.len() - k,
        {
            let ghost before = self.subs@.take(k as int);
            assert(self.subs@.take(k + 1) =~= before.push(self.subs@[k as int]));
            let hit = self.subs[k] == key;
            proof {
                let now = self.subs@.take(k + 1);
                if hit {
                    assert(now[k as int] == key);
                } else if found {
                    let w = choose|w: int| 0 <= w < before.len() && before[w] == key;
                    assert(now[w] == key);
                } else if now.contains(key) {
                    let w = choose|w: int| 0 <= w < k + 1 && now[w] == key;
                    assert(before[w] == key);
                }
            }
            if hit {
                found = true;
            }
            k += 1;
        }
        assert(self.subs@.take(self.subs@.len() as int) =~= self.subs@);
        if !found {
            self.subs.push(key);
        }
        match self.value {
            Some(v) => v == key,
            None => false,
        }
    }

    /// Moves the source to `next` and returns the keys to notify.
    pub fn set(&mut self, next: u64) -> (r: Vec<u64>)
        ensures
            r@ == selected_changes(old(self).subscribers(), old(self).current(), next),
            final(self).current() == Some(next),
            final(self).subscribers() == old(self).subscribers(),
    {
        let prev = self.value;
        let r = changed_keys(&self.subs, prev, next);
        self.value = Some(next);
        r
    }
}

fn changed_keys(subs: &Vec<u64>, prev: Option<u64>, next: u64) -> (r: Vec<u64>)
    ensures
        r@ == selected_changes(subs@, prev, next),
{
    let mut r: Vec<u64> = Vec::new();
    let changed = match prev {
        Some(p) => p != next,
        None => true,
    };
    let mut k: usize = 0;
    while k < subs.len()
        invariant
            k <= subs@.len(),
            changed == (prev != Some(next)),
            r@ == selected_changes(subs@.take(k as int), prev, next),
        decreases subs@.len() - k,
    {
        let key = subs[k];
        assert(subs@.take(k + 1).drop_last() =~= subs@.take(k as int));
        let hit = match prev {
            Some(p) => key == next || key == p,
            None => key == next,
        };
        if changed && hit {
            r.push(key);
        }
        k += 1;
    }
    assert(subs@.take(subs@.len() as int) =~= subs@);
    r
}

/// A selector whose source starts at `initial`, with no key remembered yet.
pub fn create_selector(initial: u64) -> (s: Selector)
    ensures
        s.current() == Some(initial),
        s.subscribers() == Seq::<u64>::empty(),
{
    Selector { value: Some(initial), subs: Vec::new() }
}

/// The keys of `subs` to notify when the source moves from `prev` to `next`, where
/// `f(key, value)` says whether `key` counts as selected under `value`: none when the
/// value is the same, else each key that `f` accepts under the new or the old value.
pub fn create_selector_with_fn<F: Fn(u64, u64) -> bool>(
    subs: &Vec<u64>,
    prev: Option<u64>,
    next: u64,
    f: &F,
) -> (r: Vec<u64>)
    requires
        forall|a: u64, b: u64| f.requires((a, b)),
    ensures
        prev == Some(next) ==> r@.len() == 0,
        r@.len() <= subs@.len(),
        forall|t: int|
            0 <= t < r@.len() ==> subs@.contains(#[trigger] r@[t]) && (f.ensures((r@[t], next), true)
                || (prev is Some && f.ensures((r@[t], prev->Some_0), true))),
        forall|i: int|
            0 <= i < subs@.len() && !r@.contains(#[trigger] subs@[i]) ==> prev == Some(next) || (f.ensures(
                (subs@[i], next),
                false,
            ) && (prev is None || f.ensures((subs@[i], prev->Some_0), false))),
{
    let mut r: Vec<u64> = Vec::new();
    let changed = match prev {
        Some(p) => p != next,
        None => true,
    };
    if !changed {
        return r;
    }
    let mut k: usize = 0;
    while k < subs.len()
        invariant
            k <= subs@.len(),
            prev != Some(next),
            forall|a: u64, b: u64| f.requires((a, b)),
            r@.len() <= k,
            forall|t: int|
                0 <= t < r@.len() ==> subs@.contains(#[trigger] r@[t]) && (f.ensures((r@[t], next), true)
                    || (prev is Some && f.ensures((r@[t], prev->Some_0), true))),
            forall|i: int|
                0 <= i < k && !r@.contains(#[trigger] subs@[i]) ==> f.ensures((subs@[i], next), false) && (
                prev is None || f.ensures((subs@[i], prev->Some_0), false)),
        decreases subs@.len() - k,
    {
        let key = subs[k];
        let ghost r0 = r@;
        let now = f(key, next);
        let before = match prev {
            Some(p) => f(key, p),
            None => false,
        };
        if now || before {
            assert(subs@.contains(key)) by {
                assert(subs@[k as int] == key);
            }
            r.push(key);
            assert(r@[r@.len() - 1] == key);
            assert forall|i: int| 0 <= i < k + 1 && !r@.contains(#[trigger] subs@[i]) implies f.ensures(
                (subs@[i], next),
                false,
            ) && (prev is None || f.ensures((subs@[i], prev->Some_0), false)) by {
                if r0.contains(subs@[i]) {
                    let w = choose|w: int| 0 <= w < r0.len() && r0[w] == subs@[i];
                    assert(r@[w] == subs@[i]);
                }
            }
        }
        k += 1;
    }
    r
}

} // verus!
