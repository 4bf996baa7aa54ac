use std::collections::HashMap;
use vstd::prelude::*;

verus! {

broadcast use vstd::std_specs::hash::group_hash_axioms;

/// Plan that turns one keyed sequence into the next.
///
/// `slots[j]` is `Some(i)` when the entry at position `j` of the new sequence is the
/// entry that stood at position `i` of the old one, and `None` when it must be created.
/// `moves[i]` is the inverse: where old entry `i` goes, or `None` when it is dropped.
/// `removed` lists the dropped old positions in ascending order.
pub struct KeyedDiff {
    pub slots: Vec<Option<usize>>,
    pub moves: Vec<Option<usize>>,
    pub removed: Vec<usize>,
}

/// Every key occurs at most once.
pub open spec fn unique_keys(s: Seq<u64>) -> bool {
    forall|a: int, b: int| 0 <= a < s.len() && 0 <= b < s.len() && a != b ==> s[a] != s[b]
}

/// `slots` and `moves` are inverse partial maps between positions that hold equal keys.
pub open spec fn is_matching(
    old: Seq<u64>,
    new: Seq<u64>,
    slots: Seq<Option<usize>>,
    moves: Seq<Option<usize>>,
) -> bool {
    &&& slots.len() == new.len()
    &&& moves.len() == old.len()
    &&& forall|j: int|
        0 <= j < slots.len() && (#[trigger] slots[j]) is Some ==> {
            let i = slots[j]->Some_0 as int;
            0 <= i < old.len() && moves[i] == Some(j as usize) && old[i] == new[j]
        }
    &&& forall|i: int|
        0 <= i < moves.len() && (#[trigger] moves[i]) is Some ==> {
            let j = moves[i]->Some_0 as int;
            0 <= j < new.len() && slots[j] == Some(i as usize)
        }
}

/// Nothing is created while an old entry with the same key is dropped.
pub open spec fn is_maximal(
    old: Seq<u64>,
    new: Seq<u64>,
    slots: Seq<Option<usize>>,
    moves: Seq<Option<usize>>,
) -> bool {
    forall|i: int, j: int|
        #![trigger old[i], new[j]]
        0 <= i < old.len() && 0 <= j < new.len() && old[i] == new[j] && moves[i] is None
            ==> slots[j] is Some
}

/// `removed` holds, in ascending order, exactly the old positions that `moves` drops.
pub open spec fn lists_dropped(moves: Seq<Option<usize>>, removed: Seq<usize>) -> bool {
    &&& forall|k: int|
        0 <= k < removed.len() ==> (#[trigger] removed[k]) < moves.len() && moves[removed[k] as int]
            is None
    &&& forall|a: int, b: int|
        0 <= a < b < removed.len() ==> (#[trigger] removed[a]) < (#[trigger] removed[b])
    &&& forall|i: int|
        0 <= i < moves.len() && (#[trigger] moves[i]) is None ==> removed.contains(i as usize)
}

/// Every position of a run of equal entries at the front keeps its entry in place.
pub open spec fn keeps_prefix(old: Seq<u64>, new: Seq<u64>, slots: Seq<Option<usize>>) -> bool {
    forall|j: int|
        0 <= j < old.len() && 0 <= j < new.len() && (forall|t: int| 0 <= t <= j ==> old[t] == new[t])
            ==> #[trigger] slots[j] == Some(j as usize)
}

/// The end of the run, from position `i` on, where `a` and `b` hold equal keys.
pub open spec fn common_prefix(a: Seq<u64>, b: Seq<u64>, i: int) -> int
    decreases a.len() - i,
{
    if 0 <= i < a.len() && i < b.len() && a[i] == b[i] {
        common_prefix(a, b, i + 1)
    } else {
        i
    }
}

/// The `t`-th entry of `s` counted from the end, the last one being the first.
pub open spec fn from_end(s: Seq<u64>, t: int) -> u64 {
    s[s.len() - t]
}

/// Every position of a run of equal entries at the back, past the common front run,
/// keeps its entry: the `e`-th entry from the end stays the `e`-th from the end.
pub open spec fn keeps_suffix(old: Seq<u64>, new: Seq<u64>, slots: Seq<Option<usize>>) -> bool {
    let p = common_prefix(old, new, 0);
    forall|e: int|
        1 <= e && e <= old.len() - p && e <= new.len() - p && (forall|t: int|
            1 <= t <= e ==> #[trigger] from_end(old, t) == from_end(new, t)) ==> #[trigger] slots[new.len() - e]
            == Some((old.len() - e) as usize)
}

/// A complete reuse plan from `old` to `new`.
pub open spec fn is_keyed_diff(old: Seq<u64>, new: Seq<u64>, d: KeyedDiff) -> bool {
    &&& keeps_prefix(old, new, d.slots@)
    &&& keeps_suffix(old, new, d.slots@)
    &&& is_matching(old, new, d.slots@, d.moves@)
    &&& is_maximal(old, new, d.slots@, d.moves@)
    &&& lists_dropped(d.moves@, d.removed@)
}

/// `next[x - start]` points at the following occurrence of `new[x]` before `end`.
spec fn links_next(new: Seq<u64>, next: Seq<Option<usize>>, start: int, end: int, x: int) -> bool {
    match next[x - start] {
        Some(y) => x < y < end && new[y as int] == new[x] && forall|z: int|
            x < z < y ==> #[trigger] new[z] != new[x],
        None => forall|z: int| x < z < end ==> #[trigger] new[z] != new[x],
    }
}

fn nones(len: usize) -> (v: Vec<Option<usize>>)
    ensures
        v@.len() == len,
        forall|x: int| 0 <= x < len ==> (#[trigger] v@[x]) is None,
{
    let mut v: Vec<Option<usize>> = Vec::with_capacity(len);
    let mut k: usize = 0;
    while k < len
        invariant
            k <= len,
            v@.len() == k,
            forall|x: int| 0 <= x < k ==> (#[trigger] v@[x]) is None,
        decreases len - k,
    {
        v.push(None);
        k += 1;
    }
    v
}

/// Computes which entries of `old` are reused at which positions of `new`.
///
/// A common prefix and suffix keep their entries in place. In the region between
/// them each old entry takes a position of the new region with its key that no other
/// old entry took, while one is left, found through a key index of the region, so the
/// work is linear in the lengths.
pub fn diff_keyed(old: &Vec<u64>, new: &Vec<u64>) -> (d: KeyedDiff)
    ensures
        is_keyed_diff(old@, new@, d),
{
    let m = old.len();
    let n = new.len();
    let mut slots = nones(n);
    let mut moves = nones(m);

    let mut start: usize = 0;
    while start < m && start < n && old[start] == new[start]
        invariant
            start <= m,
            start <= n,
            m == old@.len(),
            n == new@.len(),
            is_matching(old@, new@, slots@, moves@),
            forall|x: int| 0 <= x < start ==> (#[trigger] moves@[x]) is Some,
            forall|x: int| 0 <= x < start ==> (#[trigger] slots@[x]) == Some(x as usize),
            common_prefix(old@, new@, 0) == common_prefix(old@, new@, start as int),
            forall|x: int| start <= x < m ==> (#[trigger] moves@[x]) is None,
            forall|x: int| start <= x < n ==> (#[trigger] slots@[x]) is None,
        decreases m - start,
    {
        slots[start] = Some(start);
        moves[start] = Some(start);
        start += 1;
    }
    assert(common_prefix(old@, new@, start as int) == start);

    let mut end: usize = m;
    let mut new_end: usize = n;
    while end > start && new_end > start && old[end - 1] == new[new_end - 1]
        invariant
            start <= end <= m,
            start <= new_end <= n,
            m == old@.len(),
            n == new@.len(),
            is_matching(old@, new@, slots@, moves@),
            forall|x: int| 0 <= x < start ==> (#[trigger] moves@[x]) is Some,
            forall|x: int| 0 <= x < start ==> (#[trigger] slots@[x]) == Some(x as usize),
            start == m || start == n || old@[start as int] != new@[start as int],
            forall|x: int| end <= x < m ==> (#[trigger] moves@[x]) is Some,
            forall|x: int| new_end <= x < n ==> (#[trigger] slots@[x]) == Some((x - n + m) as usize),
            m - end == n - new_end,
            start == common_prefix(old@, new@, 0),
            forall|x: int| start <= x < end ==> (#[trigger] moves@[x]) is None,
            forall|x: int| start <= x < new_end ==> (#[trigger] slots@[x]) is None,
        decreases end,
    {
        end -= 1;
        new_end -= 1;
        slots[new_end] = Some(end);
        moves[end] = Some(new_end);
    }

    // Index of the new region: the first position of each key, and for each
    // position the next one with the same key.
    let mut first: HashMap<u64, usize> = HashMap::new();
    let mut next = nones(new_end - start);
    let mut j: usize = new_end;
    while j > start
        invariant
            start <= j <= new_end <= n,
            n == new@.len(),
            next@.len() == new_end - start,
            forall|key: u64|
                #[trigger] first@.contains_key(key) ==> {
                    let p = first@[key] as int;
                    &&& j <= p < new_end
                    &&& new@[p] == key
                    &&& forall|y: int| j <= y < p ==> #[trigger] new@[y] != key
                },
            forall|key: u64|
                !(#[trigger] first@.contains_key(key)) ==> forall|y: int|
                    j <= y < new_end ==> #[trigger] new@[y] != key,
            forall|x: int|
                j <= x < new_end ==> #[trigger] links_next(new@, next@, start as int, new_end as int, x),
        decreases j,
    {
        j -= 1;
        let key = new[j];
        let found: Option<usize> = match first.get(&key) {
            Some(p) => Some(*p),
            None => None,
        };
        let ghost next0 = next@;
        next[j - start] = found;
        first.insert(key, j);
        assert forall|x: int|
            j <= x < new_end implies #[trigger] links_next(
                new@,
                next@,
                start as int,
                new_end as int,
                x,
            ) by {
            if x != j {
                assert(links_next(new@, next0, start as int, new_end as int, x));
                assert(next@[x - start] == next0[x - start]);
            } else {
                match found {
                    Some(p) => {
                        assert forall|z: int| x < z < p implies #[trigger] new@[z] != new@[x] by {}
                    },
                    None => {},
                }
            }
        }
    }

    let mut removed: Vec<usize> = Vec::new();
    let mut i: usize = start;
    while i < end
        invariant
            start <= i <= end <= m,
            start <= new_end <= n,
            m == old@.len(),
            n == new@.len(),
            next@.len() == new_end - start,
            is_matching(old@, new@, slots@, moves@),
            forall|x: int| 0 <= x < start ==> (#[trigger] moves@[x]) is Some,
            forall|x: int| 0 <= x < start ==> (#[trigger] slots@[x]) == Some(x as usize),
            start == m || start == n || old@[start as int] != new@[start as int],
            forall|x: int| end <= x < m ==> (#[trigger] moves@[x]) is Some,
            forall|x: int| new_end <= x < n ==> (#[trigger] slots@[x]) == Some((x - n + m) as usize),
            m - end == n - new_end,
            start == common_prefix(old@, new@, 0),
            forall|x: int| i <= x < end ==> (#[trigger] moves@[x]) is None,
            forall|x: int, y: int|
                #![trigger old@[x], new@[y]]
                start <= x < i && start <= y < new_end && old@[x] == new@[y] && moves@[x] is None
                    ==> slots@[y] is Some,
            forall|k: int|
                0 <= k < removed@.len() ==> start <= (#[trigger] removed@[k]) < i
                    && moves@[removed@[k] as int] is None,
            forall|a: int, b: int|
                0 <= a < b < removed@.len() ==> (#[trigger] removed@[a]) < (#[trigger] removed@[b]),
            forall|x: int|
                start <= x < i && (#[trigger] moves@[x]) is None ==> removed@.contains(x as usize),
            forall|key: u64|
                #[trigger] first@.contains_key(key) ==> {
                    let p = first@[key] as int;
                    &&& start <= p < new_end
                    &&& new@[p] == key
                    &&& slots@[p] is None
                    &&& forall|y: int|
                        start <= y < p && #[trigger] new@[y] == key ==> slots@[y] is Some
                    &&& forall|y: int|
                        p < y < new_end && #[trigger] new@[y] == key ==> slots@[y] is None
                },
            forall|key: u64|
                !(#[trigger] first@.contains_key(key)) ==> forall|y: int|
                    start <= y < new_end && #[trigger] new@[y] == key ==> slots@[y] is Some,
            forall|x: int|
                start <= x < new_end ==> #[trigger] links_next(
                    new@,
                    next@,
                    start as int,
                    new_end as int,
                    x,
                ),
        decreases end - i,
    {
        let key = old[i];
        let found: Option<usize> = match first.get(&key) {
            Some(p) => Some(*p),
            None => None,
        };
        match found {
            Some(p) => {
                let ghost slots0 = slots@;
                assert(links_next(new@, next@, start as int, new_end as int, p as int));
                slots[p] = Some(i);
                moves[i] = Some(p);
                let after = next[p - start];
                match after {
                    Some(q) => {
                        first.insert(key, q);
                    },
                    None => {
                        first.remove(&key);
                    },
                }
                assert forall|y: int| start <= y < new_end && slots0[y] is Some implies (
                #[trigger] slots@[y]) is Some by {}
            },
            None => {
                let ghost r0 = removed@;
                removed.push(i);
                assert(removed@[removed@.len() - 1] == i);
                assert forall|x: usize| r0.contains(x) implies removed@.contains(x) by {
                    let k = choose|k: int| 0 <= k < r0.len() && r0[k] == x;
                    assert(removed@[k] == x);
                }
            },
        }
        i += 1;
    }
    assert forall|e: int|
        1 <= e && e <= m - start && e <= n - start && (forall|t: int|
            1 <= t <= e ==> #[trigger] from_end(old@, t) == from_end(new@, t)) implies #[trigger] slots@[n - e] == Some(
        (m - e) as usize) by {
        if e > n - new_end {
            let t = n - new_end + 1;
            assert(from_end(old@, t) == from_end(new@, t));
        }
    }
    assert forall|j: int|
        0 <= j < m && 0 <= j < n && (forall|t: int| 0 <= t <= j ==> old@[t] == new@[t]) implies #[trigger] slots@[j]
        == Some(j as usize) by {
        if j >= start {
            assert(old@[start as int] == new@[start as int]);
        }
    }
    KeyedDiff { slots, moves, removed }
}

} // verus!

verus! {

/// The previous keyed sequence together with the resource handle of each entry.
///
/// Handles are ids that no two live entries share; fresh ones are drawn from a
/// counter that only grows.
pub struct KeyedList {
    keys: Vec<u64>,
    handles: Vec<u64>,
    next_handle: u64,
}

/// What one call of `map_keyed` did: the reuse plan, and the handles it released at once.
pub struct KeyedUpdate {
    pub plan: KeyedDiff,
    pub disposed: Vec<u64>,
}

impl KeyedList {
    pub closed spec fn key_seq(&self) -> Seq<u64> {
        self.keys@
    }

    pub closed spec fn handle_seq(&self) -> Seq<u64> {
        self.handles@
    }

    pub closed spec fn next_id(&self) -> u64 {
        self.next_handle
    }

    pub closed spec fn wf(&self) -> bool {
        &&& self.keys@.len() == self.handles@.len()
        &&& self.keys@.len() <= usize::MAX
        &&& self.handles@.no_duplicates()
        &&& forall|j: int| 0 <= j < self.handles@.len() ==> #[trigger] self.handles@[j] < self.next_handle
    }

    pub fn new() -> (r: KeyedList)
        ensures
            r.wf(),
            r.key_seq() == Seq::<u64>::empty(),
            r.handle_seq() == Seq::<u64>::empty(),
            r.next_id() == 0,
    {
        KeyedList { keys: Vec::new(), handles: Vec::new(), next_handle: 0 }
    }

    pub fn keys(&self) -> (r: &Vec<u64>)
        ensures
            r@ == self.key_seq(),
    {
        &self.keys
    }

    pub fn handles(&self) -> (r: &Vec<u64>)
        ensures
            r@ == self.handle_seq(),
    {
        &self.handles
    }

    pub fn next_handle(&self) -> (r: u64)
        ensures
            r == self.next_id(),
    {
        self.next_handle
    }
}

/// `b` and `u` are what `map_keyed` makes of `a` and `new_keys`.
pub open spec fn is_keyed_update(a: KeyedList, new_keys: Seq<u64>, b: KeyedList, u: KeyedUpdate) -> bool {
    let slots = u.plan.slots@;
    &&& is_keyed_diff(a.key_seq(), new_keys, u.plan)
    &&& b.key_seq() == new_keys
    &&& b.handle_seq().len() == new_keys.len()
    &&& forall|j: int|
        0 <= j < new_keys.len() && (#[trigger] slots[j]) is Some ==> b.handle_seq()[j]
            == a.handle_seq()[slots[j]->Some_0 as int]
    &&& forall|j: int|
        0 <= j < new_keys.len() && (#[trigger] slots[j]) is None ==> a.next_id() <= b.handle_seq()[j]
            < b.next_id()
    &&& new_keys.len() > 0 ==> u.disposed@ == u.plan.removed@.map_values(
        |i: usize| a.handle_seq()[i as int],
    )
    &&& new_keys.len() == 0 ==> u.disposed@ == Seq::<u64>::empty()
}

/// Every handle that the update lets go of: disposed at once, or, when the new
/// sequence is empty, all of them, queued for disposal after the pass.
pub open spec fn released(a: KeyedList, new_keys: Seq<u64>, u: KeyedUpdate) -> Seq<u64> {
    if new_keys.len() == 0 {
        a.handle_seq()
    } else {
        u.disposed@
    }
}

/// Moves the keyed sequence held by `list` to `new_keys`.
///
/// Entries whose key stays keep their handle, wherever they move; entries whose key
/// goes are disposed at once; positions with a new key get a fresh handle, which the
/// caller fills by running its mapping inside a new scope. When `new_keys` is empty
/// every old handle is queued on `queue` instead of being disposed during the pass.
pub fn map_keyed(list: &mut KeyedList, queue: &mut crate::spawn::DisposalQueue, new_keys: Vec<u64>) -> (u: KeyedUpdate)
    requires
        old(list).wf(),
        old(list).next_id() + new_keys@.len() <= u64::MAX,
    ensures
        final(list).wf(),
        final(list).handle_seq().no_duplicates(),
        old(list).next_id() <= final(list).next_id() <= old(list).next_id() + new_keys@.len(),
        is_keyed_update(*old(list), new_keys@, *final(list), u),
        new_keys@.len() == 0 ==> final(queue)@ == old(queue)@ + old(list).handle_seq(),
        new_keys@.len() > 0 ==> final(queue)@ == old(queue)@,
{
    let ghost a = *list;
    let plan = diff_keyed(&list.keys, &new_keys);
    let n = new_keys.len();
    let ghost slots = plan.slots@;

    let mut handles: Vec<u64> = Vec::with_capacity(n);
    let mut counter: u64 = list.next_handle;
    let mut j: usize = 0;
    while j < n
        invariant
            *list == a,
            a.wf(),
            n == new_keys@.len(),
            a.next_id() + n <= u64::MAX,
            is_keyed_diff(a.key_seq(), new_keys@, plan),
            slots == plan.slots@,
            j <= n,
            handles@.len() == j,
            a.next_id() <= counter <= a.next_id() + j,
            handles@.no_duplicates(),
            forall|x: int|
                0 <= x < j && (#[trigger] slots[x]) is Some ==> handles@[x] == a.handle_seq()[slots[x]->Some_0 as int],
            forall|x: int|
                0 <= x < j && (#[trigger] slots[x]) is None ==> a.next_id() <= handles@[x] < counter,
        decreases n - j,
    {
        match plan.slots[j] {
            Some(i) => {
                let h = list.handles[i];
                assert forall|x: int| 0 <= x < j implies handles@[x] != h by {
                    if slots[x] is Some {
                        let i2 = slots[x]->Some_0 as int;
                        assert(i2 != i);
                        assert(a.handle_seq()[i2] != a.handle_seq()[i as int]);
                    } else {
                        assert(a.handle_seq()[i as int] < a.next_id());
                    }
                }
                handles.push(h);
            },
            None => {
                assert forall|x: int| 0 <= x < j implies handles@[x] != counter by {
                    if slots[x] is Some {
                        let i2 = slots[x]->Some_0 as int;
                        assert(a.handle_seq()[i2] < a.next_id());
                    }
                }
                handles.push(counter);
                counter += 1;
            },
        }
        j += 1;
    }

    let mut disposed: Vec<u64> = Vec::new();
    if n == 0 {
        let all = list.handles.clone();
        crate::spawn::queue_microtask(queue, all);
    } else {
        let mut k: usize = 0;
        while k < plan.removed.len()
            invariant
                *list == a,
                a.wf(),
                lists_dropped(plan.moves@, plan.removed@),
                plan.moves@.len() == a.key_seq().len(),
                k <= plan.removed@.len(),
                disposed@ == plan.removed@.take(k as int).map_values(|i: usize| a.handle_seq()[i as int]),
            decreases plan.removed@.len() - k,
        {
            let i = plan.removed[k];
            disposed.push(list.handles[i]);
            k += 1;
            assert(disposed@ =~= plan.removed@.take(k as int).map_values(|i: usize| a.handle_seq()[i as int]));
        }
        assert(plan.removed@.take(plan.removed@.len() as int) =~= plan.removed@);
    }

    list.keys = new_keys;
    list.handles = handles;
    list.next_handle = counter;
    proof {
        assert forall|x: int| 0 <= x < list.handles@.len() implies #[trigger] list.handles@[x] < list.next_handle by {
            if slots[x] is Some {
                assert(a.handle_seq()[slots[x]->Some_0 as int] < a.next_id());
            }
        }
    }
    KeyedUpdate { plan, disposed }
}

/// An entry whose key occurs in both sequences keeps its handle at its new position,
/// and that handle is not released.
pub proof fn lemma_shared_key_keeps_handle(
    a: KeyedList,
    new_keys: Seq<u64>,
    b: KeyedList,
    u: KeyedUpdate,
    i: int,
    j: int,
)
    requires
        a.wf(),
        is_keyed_update(a, new_keys, b, u),
        unique_keys(a.key_seq()),
        unique_keys(new_keys),
        0 <= i < a.key_seq().len(),
        0 <= j < new_keys.len(),
        a.key_seq()[i] == new_keys[j],
    ensures
        b.handle_seq()[j] == a.handle_seq()[i],
        !released(a, new_keys, u).contains(a.handle_seq()[i]),
{
    let slots = u.plan.slots@;
    let moves = u.plan.moves@;
    assert(is_matching(a.key_seq(), new_keys, slots, moves));
    if moves[i] is None {
        assert(a.key_seq()[i] == new_keys[j]);
        assert(slots[j] is Some);
    }
    if slots[j] is Some {
        let i2 = slots[j]->Some_0 as int;
        assert(a.key_seq()[i2] == new_keys[j]);
        assert(i2 == i);
    } else {
        let j2 = moves[i]->Some_0 as int;
        assert(new_keys[j2] == a.key_seq()[i]);
        assert(j2 == j);
    }
    assert(moves[i] == Some(j as usize));
    if released(a, new_keys, u).contains(a.handle_seq()[i]) {
        let k = choose|k: int| 0 <= k < u.disposed@.len() && u.disposed@[k] == a.handle_seq()[i];
        let i2 = u.plan.removed@[k] as int;
        assert(a.handle_seq()[i2] == a.handle_seq()[i]);
        assert(moves[i2] is None);
    }
}

/// An entry whose key the new sequence lacks is released exactly once.
pub proof fn lemma_dropped_key_released_once(
    a: KeyedList,
    new_keys: Seq<u64>,
    b: KeyedList,
    u: KeyedUpdate,
    i: int,
)
    requires
        a.wf(),
        is_keyed_update(a, new_keys, b, u),
        0 <= i < a.key_seq().len(),
        !new_keys.contains(a.key_seq()[i]),
    ensures
        released(a, new_keys, u).contains(a.handle_seq()[i]),
        released(a, new_keys, u).no_duplicates(),
        !b.handle_seq().contains(a.handle_seq()[i]),
{
    let moves = u.plan.moves@;
    let removed = u.plan.removed@;
    assert(is_matching(a.key_seq(), new_keys, u.plan.slots@, moves));
    if moves[i] is Some {
        let j = moves[i]->Some_0 as int;
        assert(u.plan.slots@[j] == Some(i as usize));
        assert(new_keys[j] == a.key_seq()[i]);
    }
    if new_keys.len() > 0 {
        assert(removed.contains(i as usize));
        let k = choose|k: int| 0 <= k < removed.len() && removed[k] == i as usize;
        assert(u.disposed@[k] == a.handle_seq()[i]);
        assert forall|x: int, y: int|
            0 <= x < u.disposed@.len() && 0 <= y < u.disposed@.len() && x != y implies u.disposed@[x]
            != u.disposed@[y] by {
            if x < y {
                assert(removed[x] < removed[y]);
            } else {
                assert(removed[y] < removed[x]);
            }
        }
    }
    if b.handle_seq().contains(a.handle_seq()[i]) {
        let j = choose|j: int| 0 <= j < b.handle_seq().len() && b.handle_seq()[j] == a.handle_seq()[i];
        if u.plan.slots@[j] is Some {
            let i2 = u.plan.slots@[j]->Some_0 as int;
            assert(a.handle_seq()[i2] == a.handle_seq()[i]);
            assert(i2 == i);
        } else {
            assert(a.handle_seq()[i] < a.next_id());
        }
    }
}

} // verus!
