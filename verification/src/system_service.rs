use crate::names::str_eq;
use vstd::prelude::*;

verus! {

/// The pool of the systems that are added without parameters.
pub const DEFAULT_POOL_INDEX: usize = 50;

/// Params for a system
pub struct SystemParams {
    /// The pool index
    pub pool_index: usize,
    /// If true, the system is still running while pause
    pub ignore_pause: bool,
}

impl Default for SystemParams {
    fn default() -> (res: Self)
        ensures
            res.pool_index == DEFAULT_POOL_INDEX,
            !res.ignore_pause,
    {
        Self { pool_index: DEFAULT_POOL_INDEX, ignore_pause: false }
    }
}

/// Params for a begin system
pub struct BeginSystemParams {
    /// The pool index
    pub pool_index: usize,
}

impl Default for BeginSystemParams {
    fn default() -> (res: Self)
        ensures
            res.pool_index == DEFAULT_POOL_INDEX,
    {
        Self { pool_index: DEFAULT_POOL_INDEX }
    }
}

/// Params for an end system
pub struct EndSystemParams {
    /// The pool index
    pub pool_index: usize,
}

impl Default for EndSystemParams {
    fn default() -> (res: Self)
        ensures
            res.pool_index == DEFAULT_POOL_INDEX,
    {
        Self { pool_index: DEFAULT_POOL_INDEX }
    }
}

/// A system called every frame.
pub struct FrameSystem<C> {
    pub identifier: String,
    pub origin: String,
    pub callback: C,
    pub ignore_pause: bool,
}

/// A system called once, before the first frame.
pub struct BeginSystem<C> {
    pub identifier: String,
    pub origin: String,
    pub callback: C,
}

/// A system called once, before closing.
pub struct EndSystem<C> {
    pub identifier: String,
    pub origin: String,
    pub callback: C,
}

/// A system pool, see [‘SystemService‘] for more informations
pub struct SystemPool<T> {
    /// Is the pool ignored, if it's not, it will not be launched when
    /// calling [‘SystemService‘]::run
    pub ignore_once: bool,
    /// Systems of the pool
    pub systems: Vec<T>,
}

/// The pools as (index, ignored once, systems), in the order of the list.
pub open spec fn pools_view<T>(pools: Seq<(usize, SystemPool<T>)>) -> Seq<(usize, bool, Seq<T>)> {
    pools.map_values(|p: (usize, SystemPool<T>)| (p.0, p.1.ignore_once, p.1.systems@))
}

/// The pool indices are strictly increasing along the list.
pub open spec fn pools_sorted<T>(pools: Seq<(usize, bool, Seq<T>)>) -> bool {
    forall|i: int, j: int| 0 <= i < j < pools.len() ==> #[trigger] pools[i].0 < #[trigger] pools[j].0
}

/// The pools with their skip marks cleared.
pub open spec fn marks_cleared<T>(pools: Seq<(usize, bool, Seq<T>)>) -> Seq<(usize, bool, Seq<T>)> {
    pools.map_values(|p: (usize, bool, Seq<T>)| (p.0, false, p.2))
}

/// The pools with the pool `index`, if there is one, marked to be skipped
/// at the next run.
pub open spec fn marked_once<T>(pools: Seq<(usize, bool, Seq<T>)>, index: usize) -> Seq<
    (usize, bool, Seq<T>),
> {
    pools.map_values(|p: (usize, bool, Seq<T>)| (p.0, p.1 || p.0 == index, p.2))
}

/// The positions of the systems a frame pool runs: none when it is marked
/// to be skipped, else those that run given the pause.
pub open spec fn frame_batch<C>(pool: (usize, bool, Seq<FrameSystem<C>>), paused: bool) -> Seq<
    usize,
> {
    if pool.1 {
        Seq::empty()
    } else {
        runnable_positions(pool.2, paused)
    }
}

/// The positions of the systems a begin or end pool runs: none when it is
/// marked to be skipped, else all of them.
pub open spec fn pool_batch<T>(pool: (usize, bool, Seq<T>)) -> Seq<usize> {
    if pool.1 {
        Seq::empty()
    } else {
        all_positions(pool.2.len())
    }
}

/// `new` is `old` with `system` added to the pool `index`, the pool being
/// created, not ignored, in index order when there was none.
pub open spec fn pool_added<T>(
    old: Seq<(usize, bool, Seq<T>)>,
    new: Seq<(usize, bool, Seq<T>)>,
    index: usize,
    system: T,
) -> bool {
    ||| exists|j: int|
        0 <= j < old.len() && #[trigger] old[j].0 == index && new == old.update(
            j,
            (index, old[j].1, old[j].2.push(system)),
        )
    ||| (forall|j: int| 0 <= j < old.len() ==> #[trigger] old[j].0 != index) && exists|pos: int|
        0 <= pos <= old.len() && new == old.insert(pos, (index, false, seq![system])) && (forall|
            i: int,
        |
            0 <= i < pos ==> #[trigger] old[i].0 < index) && (forall|i: int|
            pos <= i < old.len() ==> #[trigger] old[i].0 > index)
}

/// The position of the pool `index` in the list, if there is one.
fn find_pool<T>(pools: &Vec<(usize, SystemPool<T>)>, index: usize) -> (res: Option<usize>)
    ensures
        res matches Some(j) ==> j < pools@.len() && pools@[j as int].0 == index,
        res is None ==> forall|j: int| 0 <= j < pools@.len() ==> #[trigger] pools@[j].0 != index,
{
    let n = pools.len();
    let mut j: usize = 0;
    while j < n
        invariant
            n == pools@.len(),
            j <= n,
            forall|m: int| 0 <= m < j ==> #[trigger] pools@[m].0 != index,
        decreases n - j,
    {
        if pools[j].0 == index {
            return Some(j);
        }
        j = j + 1;
    }
    None
}

/// Adds `system` to the pool `index`; if the pool not exists, it is created
/// at its place in index order.
fn add_to_pools<T>(pools: &mut Vec<(usize, SystemPool<T>)>, index: usize, system: T)
    requires
        pools_sorted(pools_view(old(pools)@)),
    ensures
        pools_sorted(pools_view(final(pools)@)),
        pool_added(pools_view(old(pools)@), pools_view(final(pools)@), index, system),
{
    let ghost old_view = pools_view(pools@);
    match find_pool(pools, index) {
        Some(j) => {
            let mut pool = pools.remove(j);
            pool.1.systems.push(system);
            pools.insert(j, pool);
            proof {
                let new_view = pools_view(pools@);
                assert(old_view[j as int].0 == index);
                assert(new_view =~= old_view.update(
                    j as int,
                    (index, old_view[j as int].1, old_view[j as int].2.push(system)),
                ));
            }
        },
        None => {
            let n = pools.len();
            let mut pos: usize = 0;
            while pos < n && pools[pos].0 < index
                invariant
                    n == pools@.len(),
                    pos <= n,
                    forall|i: int| 0 <= i < pos ==> #[trigger] pools@[i].0 < index,
                decreases n - pos,
            {
                pos = pos + 1;
            }
            let mut systems: Vec<T> = Vec::new();
            systems.push(system);
            pools.insert(pos, (index, SystemPool { ignore_once: false, systems }));
            proof {
                let new_view = pools_view(pools@);
                assert(new_view =~= old_view.insert(pos as int, (index, false, seq![system])));
                assert forall|i: int| pos <= i < old_view.len() implies #[trigger] old_view[i].0
                    > index by {
                    assert(old_view[pos as int].0 >= index);
                    if i > pos {
                        assert(old_view[pos as int].0 < old_view[i].0);
                    }
                }
                assert forall|i: int, j: int| 0 <= i < j < new_view.len() implies #[trigger] new_view[i].0
                    < #[trigger] new_view[j].0 by {
                    if j < pos {
                        assert(new_view[i] == old_view[i]);
                        assert(new_view[j] == old_view[j]);
                    } else if j == pos {
                        assert(new_view[i] == old_view[i]);
                    } else if i == pos {
                        assert(new_view[j] == old_view[j - 1]);
                    } else if i < pos {
                        assert(new_view[i] == old_view[i]);
                        assert(new_view[j] == old_view[j - 1]);
                    } else {
                        assert(new_view[i] == old_view[i - 1]);
                        assert(new_view[j] == old_view[j - 1]);
                    }
                }
            }
        },
    }
}

/// Marks the pool `index`, if there is one, to be skipped once.
fn ignore_once_in<T>(pools: &mut Vec<(usize, SystemPool<T>)>, index: usize)
    ensures
        forall|j: int|
            0 <= j < old(pools)@.len() ==> #[trigger] pools_view(final(pools)@)[j] == if old(
                pools,
            )@[j].0 == index {
                (old(pools)@[j].0, true, old(pools)@[j].1.systems@)
            } else {
                pools_view(old(pools)@)[j]
            },
        final(pools)@.len() == old(pools)@.len(),
{
    let ghost old_view = pools_view(pools@);
    let n = pools.len();
    let mut j: usize = 0;
    while j < n
        invariant
            n == pools@.len(),
            n == old_view.len(),
            old_view == pools_view(old(pools)@),
            j <= n,
            forall|m: int|
                0 <= m < n ==> #[trigger] pools_view(pools@)[m] == if m < j && old_view[m].0
                    == index {
                    (old_view[m].0, true, old_view[m].2)
                } else {
                    old_view[m]
                },
        decreases n - j,
    {
        let ghost before = pools_view(pools@);
        assert(before[j as int].0 == pools@[j as int].0);
        if pools[j].0 == index {
            set_ignore_once(pools, j, true);
        }
        proof {
            assert forall|m: int| 0 <= m < n implies #[trigger] pools_view(pools@)[m] == if m < j + 1
                && old_view[m].0 == index {
                (old_view[m].0, true, old_view[m].2)
            } else {
                old_view[m]
            } by {
                assert(before[m] == if m < j && old_view[m].0 == index {
                    (old_view[m].0, true, old_view[m].2)
                } else {
                    old_view[m]
                });
            }
        }
        j = j + 1;
    }
}

/// The positions, in order, of the frame systems that run: all of them,
/// or only those that ignore the pause when paused.
pub open spec fn runnable_positions<C>(systems: Seq<FrameSystem<C>>, paused: bool) -> Seq<usize>
    decreases systems.len(),
{
    if systems.len() == 0 {
        Seq::empty()
    } else if !paused || systems.last().ignore_pause {
        runnable_positions(systems.drop_last(), paused).push((systems.len() - 1) as usize)
    } else {
        runnable_positions(systems.drop_last(), paused)
    }
}

/// The positions of all the systems of a pool, in order.
pub open spec fn all_positions(count: nat) -> Seq<usize> {
    Seq::new(count, |i: int| i as usize)
}

/// Positions `0..count`, in order.
fn positions(count: usize) -> (res: Vec<usize>)
    ensures
        res@ == all_positions(count as nat),
{
    let mut res: Vec<usize> = Vec::new();
    let mut k: usize = 0;
    while k < count
        invariant
            k <= count,
            res@ == all_positions(k as nat),
        decreases count - k,
    {
        res.push(k);
        assert(res@ =~= all_positions((k + 1) as nat));
        k = k + 1;
    }
    res
}

/// Sets the skip mark of pool `j`.
fn set_ignore_once<T>(pools: &mut Vec<(usize, SystemPool<T>)>, j: usize, value: bool)
    requires
        j < old(pools)@.len(),
    ensures
        pools_view(final(pools)@) == pools_view(old(pools)@).update(
            j as int,
            (old(pools)@[j as int].0, value, old(pools)@[j as int].1.systems@),
        ),
        final(pools)@.len() == old(pools)@.len(),
{
    let mut pool = pools.remove(j);
    pool.1.ignore_once = value;
    pools.insert(j, pool);
    assert(pools_view(pools@) =~= pools_view(old(pools)@).update(
        j as int,
        (old(pools)@[j as int].0, value, old(pools)@[j as int].1.systems@),
    ));
}

/// Clears the skip marks of the pools; returns, pool after pool, the
/// positions of the systems to run: none in a pool that was marked to be
/// skipped, all the others.
fn schedule_all<T>(pools: &mut Vec<(usize, SystemPool<T>)>) -> (batches: Vec<Vec<usize>>)
    ensures
        pools_view(final(pools)@) == pools_view(old(pools)@).map_values(
            |p: (usize, bool, Seq<T>)| (p.0, false, p.2),
        ),
        batches@.len() == old(pools)@.len(),
        forall|j: int|
            0 <= j < old(pools)@.len() ==> #[trigger] batches@[j]@ == if old(pools)@[j].1.ignore_once {
                Seq::<usize>::empty()
            } else {
                all_positions(old(pools)@[j].1.systems@.len())
            },
{
    let ghost old_view = pools_view(pools@);
    let mut batches: Vec<Vec<usize>> = Vec::new();
    let n = pools.len();
    let mut j: usize = 0;
    while j < n
        invariant
            n == pools@.len(),
            n == old_view.len(),
            old_view == pools_view(old(pools)@),
            j <= n,
            batches@.len() == j,
            forall|m: int|
                0 <= m < n ==> #[trigger] pools_view(pools@)[m] == if m < j {
                    (old_view[m].0, false, old_view[m].2)
                } else {
                    old_view[m]
                },
            forall|m: int|
                0 <= m < j ==> #[trigger] batches@[m]@ == if old_view[m].1 {
                    Seq::<usize>::empty()
                } else {
                    all_positions(old_view[m].2.len())
                },
        decreases n - j,
    {
        let batch: Vec<usize>;
        let ghost before = pools_view(pools@);
        assert(before[j as int] == (pools@[j as int].0, pools@[j as int].1.ignore_once, pools@[j as int].1.systems@));
        if pools[j].1.ignore_once {
            set_ignore_once(pools, j, false);
            batch = Vec::new();
        } else {
            batch = positions(pools[j].1.systems.len());
        }
        batches.push(batch);
        proof {
            assert forall|m: int| 0 <= m < n implies #[trigger] pools_view(pools@)[m] == if m < j + 1 {
                (old_view[m].0, false, old_view[m].2)
            } else {
                old_view[m]
            } by {
                assert(before[m] == if m < j {
                    (old_view[m].0, false, old_view[m].2)
                } else {
                    old_view[m]
                });
            }
            assert forall|m: int| 0 <= m < j + 1 implies #[trigger] batches@[m]@ == if old_view[m].1 {
                Seq::<usize>::empty()
            } else {
                all_positions(old_view[m].2.len())
            } by {
                if m == j {
                    assert(batches@[m] == batch);
                }
            }
        }
        j = j + 1;
    }
    assert(pools_view(pools@) =~= old_view.map_values(|p: (usize, bool, Seq<T>)| (p.0, false, p.2)));
    batches
}

/// Clears the skip marks of the frame pools; returns, pool after pool, the
/// positions of the systems to run: none in a pool that was marked to be
/// skipped, else those that run given the pause.
fn schedule_frames<C>(pools: &mut Vec<(usize, SystemPool<FrameSystem<C>>)>, paused: bool) -> (batches:
    Vec<Vec<usize>>)
    ensures
        pools_view(final(pools)@) == pools_view(old(pools)@).map_values(
            |p: (usize, bool, Seq<FrameSystem<C>>)| (p.0, false, p.2),
        ),
        batches@.len() == old(pools)@.len(),
        forall|j: int|
            0 <= j < old(pools)@.len() ==> #[trigger] batches@[j]@ == if old(pools)@[j].1.ignore_once {
                Seq::<usize>::empty()
            } else {
                runnable_positions(old(pools)@[j].1.systems@, paused)
            },
{
    let ghost old_view = pools_view(pools@);
    let mut batches: Vec<Vec<usize>> = Vec::new();
    let n = pools.len();
    let mut j: usize = 0;
    while j < n
        invariant
            n == pools@.len(),
            n == old_view.len(),
            old_view == pools_view(old(pools)@),
            j <= n,
            batches@.len() == j,
            forall|m: int|
                0 <= m < n ==> #[trigger] pools_view(pools@)[m] == if m < j {
                    (old_view[m].0, false, old_view[m].2)
                } else {
                    old_view[m]
                },
            forall|m: int|
                0 <= m < j ==> #[trigger] batches@[m]@ == if old_view[m].1 {
                    Seq::<usize>::empty()
                } else {
                    runnable_positions(old_view[m].2, paused)
                },
        decreases n - j,
    {
        let mut batch: Vec<usize> = Vec::new();
        let ghost before = pools_view(pools@);
        assert(before[j as int] == (pools@[j as int].0, pools@[j as int].1.ignore_once, pools@[j as int].1.systems@));
        if pools[j].1.ignore_once {
            set_ignore_once(pools, j, false);
        } else {
            let systems = &pools[j].1.systems;
            let ghost s = systems@;
            let count = systems.len();
            let mut k: usize = 0;
            assert(s.take(0) =~= Seq::<FrameSystem<C>>::empty());
            while k < count
                invariant
                    count == s.len(),
                    k <= count,
                    s == systems@,
                    batch@ == runnable_positions(s.take(k as int), paused),
                decreases count - k,
            {
                proof {
                    assert(s.take(k + 1).drop_last() =~= s.take(k as int));
                    assert(s.take(k + 1).last() == s[k as int]);
                }
                if !paused || systems[k].ignore_pause {
                    batch.push(k);
                }
                k = k + 1;
            }
            assert(s.take(count as int) =~= s);
        }
        batches.push(batch);
        proof {
            assert forall|m: int| 0 <= m < n implies #[trigger] pools_view(pools@)[m] == if m < j + 1 {
                (old_view[m].0, false, old_view[m].2)
            } else {
                old_view[m]
            } by {
                assert(before[m] == if m < j {
                    (old_view[m].0, false, old_view[m].2)
                } else {
                    old_view[m]
                });
            }
            assert forall|m: int| 0 <= m < j + 1 implies #[trigger] batches@[m]@ == if old_view[m].1 {
                Seq::<usize>::empty()
            } else {
                runnable_positions(old_view[m].2, paused)
            } by {
                if m == j {
                    assert(batches@[m] == batch);
                }
            }
        }
        j = j + 1;
    }
    assert(pools_view(pools@) =~= old_view.map_values(
        |p: (usize, bool, Seq<FrameSystem<C>>)| (p.0, false, p.2),
    ));
    batches
}

/// A system that knows the origin it was added with.
pub trait SystemOrigin {
    /// The origin of the system.
    spec fn origin_name(&self) -> Seq<char>;

    /// Returns the origin of the system.
    fn get_origin(&self) -> (origin: &str)
        ensures
            origin@ == self.origin_name(),
    ;
}

impl<C> SystemOrigin for FrameSystem<C> {
    open spec fn origin_name(&self) -> Seq<char> {
        self.origin@
    }

    fn get_origin(&self) -> (origin: &str) {
        self.origin.as_str()
    }
}

impl<C> SystemOrigin for BeginSystem<C> {
    open spec fn origin_name(&self) -> Seq<char> {
        self.origin@
    }

    fn get_origin(&self) -> (origin: &str) {
        self.origin.as_str()
    }
}

impl<C> SystemOrigin for EndSystem<C> {
    open spec fn origin_name(&self) -> Seq<char> {
        self.origin@
    }

    fn get_origin(&self) -> (origin: &str) {
        self.origin.as_str()
    }
}

/// The systems whose origin is not `origin`, in order.
pub open spec fn without_origin<T: SystemOrigin>(systems: Seq<T>, origin: Seq<char>) -> Seq<T>
    decreases systems.len(),
{
    if systems.len() == 0 {
        Seq::empty()
    } else if systems.last().origin_name() == origin {
        without_origin(systems.drop_last(), origin)
    } else {
        without_origin(systems.drop_last(), origin).push(systems.last())
    }
}

/// Whether a system comes from another origin than `origin`.
pub open spec fn of_other_origin<T: SystemOrigin>(origin: Seq<char>) -> spec_fn(T) -> bool {
    |system: T| system.origin_name() != origin
}

/// Unloading an origin keeps, in their order, exactly the systems of the
/// other origins: none of origin `origin` is left, and none of another is
/// lost.
pub proof fn lemma_without_origin_filters<T: SystemOrigin>(systems: Seq<T>, origin: Seq<char>)
    ensures
        without_origin(systems, origin) == systems.filter(of_other_origin::<T>(origin)),
    decreases systems.len(),
{
    reveal(Seq::filter);
    if systems.len() > 0 {
        lemma_without_origin_filters(systems.drop_last(), origin);
    }
}

/// The pools, each without its systems of origin `origin`.
pub open spec fn pools_without_origin<T: SystemOrigin>(
    pools: Seq<(usize, bool, Seq<T>)>,
    origin: Seq<char>,
) -> Seq<(usize, bool, Seq<T>)> {
    pools.map_values(|p: (usize, bool, Seq<T>)| (p.0, p.1, without_origin(p.2, origin)))
}

/// Removes, from every pool, the systems of origin `origin`.
fn drop_origin<T: SystemOrigin>(pools: &mut Vec<(usize, SystemPool<T>)>, origin: &str)
    ensures
        pools_view(final(pools)@) == pools_without_origin(pools_view(old(pools)@), origin@),
{
    let ghost old_view = pools_view(pools@);
    let n = pools.len();
    let mut j: usize = 0;
    while j < n
        invariant
            n == pools@.len(),
            n == old_view.len(),
            old_view == pools_view(old(pools)@),
            j <= n,
            forall|m: int|
                0 <= m < n ==> #[trigger] pools_view(pools@)[m] == if m < j {
                    (old_view[m].0, old_view[m].1, without_origin(old_view[m].2, origin@))
                } else {
                    old_view[m]
                },
        decreases n - j,
    {
        let ghost before = pools_view(pools@);
        assert(before[j as int] == old_view[j as int]);
        assert(before[j as int] == (
            pools@[j as int].0,
            pools@[j as int].1.ignore_once,
            pools@[j as int].1.systems@,
        ));
        let mut pool = pools.remove(j);
        let mut rest = pool.1.systems;
        let ghost s = rest@;
        assert(s == old_view[j as int].2);
        let mut kept: Vec<T> = Vec::new();
        let ghost mut k: int = 0;
        assert(s.take(0) =~= Seq::<T>::empty());
        while rest.len() > 0
            invariant
                0 <= k <= s.len(),
                rest@ == s.skip(k),
                kept@ == without_origin(s.take(k), origin@),
            decreases rest@.len(),
        {
            let system = rest.remove(0);
            proof {
                assert(s.take(k + 1).drop_last() =~= s.take(k));
                assert(s.take(k + 1).last() == system);
                assert(rest@ =~= s.skip(k + 1));
                k = k + 1;
            }
            if !str_eq(system.get_origin(), origin) {
                kept.push(system);
            }
        }
        assert(s.take(k) =~= s);
        pool.1.systems = kept;
        pools.insert(j, pool);
        proof {
            assert forall|m: int| 0 <= m < n implies #[trigger] pools_view(pools@)[m] == if m < j
                + 1 {
                (old_view[m].0, old_view[m].1, without_origin(old_view[m].2, origin@))
            } else {
                old_view[m]
            } by {
                if m != j {
                    assert(pools_view(pools@)[m] == before[m]);
                }
            }
        }
        j = j + 1;
    }
    assert(pools_view(pools@) =~= pools_without_origin(old_view, origin@));
}

/// The callbacks of the systems of a pool, in order.
pub open spec fn frame_callbacks<C>(systems: Seq<FrameSystem<C>>) -> Seq<C> {
    systems.map_values(|s: FrameSystem<C>| s.callback)
}

/// The callbacks of the begin systems of a pool, in order.
pub open spec fn begin_callbacks<C>(systems: Seq<BeginSystem<C>>) -> Seq<C> {
    systems.map_values(|s: BeginSystem<C>| s.callback)
}

/// The callbacks of the end systems of a pool, in order.
pub open spec fn end_callbacks<C>(systems: Seq<EndSystem<C>>) -> Seq<C> {
    systems.map_values(|s: EndSystem<C>| s.callback)
}

/// The pool of a system and whether it runs during a pause, once the
/// missing parameters are replaced by the default ones.
pub open spec fn frame_params(params: Option<SystemParams>) -> (usize, bool) {
    match params {
        Some(p) => (p.pool_index, p.ignore_pause),
        None => (DEFAULT_POOL_INDEX, false),
    }
}

/// The pool of a begin system, the default one when none is given.
pub open spec fn begin_pool_index(params: Option<BeginSystemParams>) -> usize {
    match params {
        Some(p) => p.pool_index,
        None => DEFAULT_POOL_INDEX,
    }
}

/// The pool of an end system, the default one when none is given.
pub open spec fn end_pool_index(params: Option<EndSystemParams>) -> usize {
    match params {
        Some(p) => p.pool_index,
        None => DEFAULT_POOL_INDEX,
    }
}

/// The systems held by the pool `index` of `pools`, none if there is no
/// such pool.
pub open spec fn pool_systems<T>(pools: Seq<(usize, bool, Seq<T>)>, index: usize) -> Seq<T> {
    if exists|j: int| 0 <= j < pools.len() && #[trigger] pools[j].0 == index {
        pools[choose|j: int| 0 <= j < pools.len() && #[trigger] pools[j].0 == index].2
    } else {
        Seq::empty()
    }
}

/// A systems collection
///
/// There is three type of systems:
/// - begin_systems are called just before the rendering but after the
///   resources allocations, it's perfect for initiliazing your entities
/// - end systems is called before closing the software
/// - systems are called every frame
///
/// There is a pool system, when you add a system, you can provide a pool,
/// every systems of the same pool will be executed in parallel. The pools
/// run one after the other, by increasing index.
/// Pools from 0 to 10 and from 90 to 100 are reservec by the engine, you
/// should avoid to create pool outside this range
/// Pool 98 is for camera
/// Pool 99 is for drawing
///
/// The library decides which systems run; the caller runs their callbacks.
pub struct SystemService<C> {
    pause: bool,
    system_pools: Vec<(usize, SystemPool<FrameSystem<C>>)>,
    begin_system_pools: Vec<(usize, SystemPool<BeginSystem<C>>)>,
    end_system_pools: Vec<(usize, SystemPool<EndSystem<C>>)>,
}

impl<C> SystemService<C> {
    /// Whether the frame systems are paused.
    pub closed spec fn paused(&self) -> bool {
        self.pause
    }

    /// The frame pools, by increasing index.
    pub closed spec fn frame_pools(&self) -> Seq<(usize, bool, Seq<FrameSystem<C>>)> {
        pools_view(self.system_pools@)
    }

    /// The begin pools, by increasing index.
    pub closed spec fn begin_pools(&self) -> Seq<(usize, bool, Seq<BeginSystem<C>>)> {
        pools_view(self.begin_system_pools@)
    }

    /// The end pools, by increasing index.
    pub closed spec fn end_pools(&self) -> Seq<(usize, bool, Seq<EndSystem<C>>)> {
        pools_view(self.end_system_pools@)
    }

    /// Each pool holds no more systems than a `usize` counts.
    pub proof fn lemma_pools_fit(&self)
        ensures
            forall|i: int|
                0 <= i < self.frame_pools().len() ==> (#[trigger] self.frame_pools()[i]).2.len()
                    <= usize::MAX,
            forall|i: int|
                0 <= i < self.begin_pools().len() ==> (#[trigger] self.begin_pools()[i]).2.len()
                    <= usize::MAX,
            forall|i: int|
                0 <= i < self.end_pools().len() ==> (#[trigger] self.end_pools()[i]).2.len()
                    <= usize::MAX,
    {
        assert forall|i: int| 0 <= i < self.frame_pools().len() implies (
        #[trigger] self.frame_pools()[i]).2.len() <= usize::MAX by {
            let v = &self.system_pools@[i].1.systems;
            assert(self.frame_pools()[i].2 == v@);
            assert(v.len() == v@.len());
        }
        assert forall|i: int| 0 <= i < self.begin_pools().len() implies (
        #[trigger] self.begin_pools()[i]).2.len() <= usize::MAX by {
            let v = &self.begin_system_pools@[i].1.systems;
            assert(self.begin_pools()[i].2 == v@);
            assert(v.len() == v@.len());
        }
        assert forall|i: int| 0 <= i < self.end_pools().len() implies (
        #[trigger] self.end_pools()[i]).2.len() <= usize::MAX by {
            let v = &self.end_system_pools@[i].1.systems;
            assert(self.end_pools()[i].2 == v@);
            assert(v.len() == v@.len());
        }
    }

    /// The pools of each kind are sorted by index.
    pub open spec fn wf(&self) -> bool {
        &&& pools_sorted(self.frame_pools())
        &&& pools_sorted(self.begin_pools())
        &&& pools_sorted(self.end_pools())
    }

    /// Returns a SystemService
    pub fn new() -> (res: Self)
        ensures
            res.wf(),
            !res.paused(),
            res.frame_pools().len() == 0,
            res.begin_pools().len() == 0,
            res.end_pools().len() == 0,
    {
        SystemService {
            pause: false,
            system_pools: Vec::new(),
            begin_system_pools: Vec::new(),
            end_system_pools: Vec::new(),
        }
    }

    /// Add a system to the collection
    ///
    /// # Arguments
    /// * `identifier` - The name of the system
    /// * `origin` - An identifier for the origin of the system, used for hot reload
    /// * `callback` - A function that will compute the world
    /// * `params` - The pool of the system, all the systems of the same pool will be processed together in parallel, and whether it runs during a pause
    ///
    pub fn add_system(&mut self, identifier: &str, origin: &str, callback: C, params: Option<SystemParams>)
        requires
            old(self).wf(),
        ensures
            final(self).wf(),
            final(self).paused() == old(self).paused(),
            final(self).begin_pools() == old(self).begin_pools(),
            final(self).end_pools() == old(self).end_pools(),
            exists|system: FrameSystem<C>|
                #[trigger] pool_added(
                    old(self).frame_pools(),
                    final(self).frame_pools(),
                    frame_params(params).0,
                    system,
                ) && system.identifier@ == identifier@ && system.origin@ == origin@
                    && system.callback == callback && system.ignore_pause == frame_params(params).1,
    {
        let effective = match params {
            Some(p) => p,
            None => SystemParams::default(),
        };
        assert(frame_params(params) == (effective.pool_index, effective.ignore_pause));
        let system = FrameSystem {
            identifier: identifier.to_owned(),
            origin: origin.to_owned(),
            callback,
            ignore_pause: effective.ignore_pause,
        };
        let ghost added = system;
        add_to_pools(&mut self.system_pools, effective.pool_index, system);
        assert(pool_added(old(self).frame_pools(), self.frame_pools(), frame_params(params).0, added));
    }

    /// Add a begin system to the collection
    ///
    /// # Arguments
    /// * `identifier` - The name of the system
    /// * `origin` - An identifier for the origin of the system, used for hot reload
    /// * `callback` - A function that will compute the world
    /// * `params` - The pool of the system, all the systems of the same pool will be processed together in parallel
    ///
    pub fn add_begin_system(
        &mut self,
        identifier: &str,
        origin: &str,
        callback: C,
        params: Option<BeginSystemParams>,
    )
        requires
            old(self).wf(),
        ensures
            final(self).wf(),
            final(self).paused() == old(self).paused(),
            final(self).frame_pools() == old(self).frame_pools(),
            final(self).end_pools() == old(self).end_pools(),
            exists|system: BeginSystem<C>|
                #[trigger] pool_added(
                    old(self).begin_pools(),
                    final(self).begin_pools(),
                    begin_pool_index(params),
                    system,
                ) && system.identifier@ == identifier@ && system.origin@ == origin@
                    && system.callback == callback,
    {
        let effective = match params {
            Some(p) => p,
            None => BeginSystemParams::default(),
        };
        assert(begin_pool_index(params) == effective.pool_index);
        let system = BeginSystem {
            identifier: identifier.to_owned(),
            origin: origin.to_owned(),
            callback,
        };
        let ghost added = system;
        add_to_pools(&mut self.begin_system_pools, effective.pool_index, system);
        assert(pool_added(old(self).begin_pools(), self.begin_pools(), begin_pool_index(params), added));
    }

    /// Add an end system to the collection
    ///
    /// # Arguments
    /// * `identifier` - The name of the system
    /// * `origin` - An identifier for the origin of the system, used for hot reload
    /// * `callback` - A function that will compute the world
    /// * `params` - The pool of the system, all the systems of the same pool will be processed together in parallel
    ///
    pub fn add_end_system(
        &mut self,
        identifier: &str,
        origin: &str,
        callback: C,
        params: Option<EndSystemParams>,
    )
        requires
            old(self).wf(),
        ensures
            final(self).wf(),
            final(self).paused() == old(self).paused(),
            final(self).frame_pools() == old(self).frame_pools(),
            final(self).begin_pools() == old(self).begin_pools(),
            exists|system: EndSystem<C>|
                #[trigger] pool_added(
                    old(self).end_pools(),
                    final(self).end_pools(),
                    end_pool_index(params),
                    system,
                ) && system.identifier@ == identifier@ && system.origin@ == origin@
                    && system.callback == callback,
    {
        let effective = match params {
            Some(p) => p,
            None => EndSystemParams::default(),
        };
        assert(end_pool_index(params) == effective.pool_index);
        let system = EndSystem {
            identifier: identifier.to_owned(),
            origin: origin.to_owned(),
            callback,
        };
        let ghost added = system;
        add_to_pools(&mut self.end_system_pools, effective.pool_index, system);
        assert(pool_added(old(self).end_pools(), self.end_pools(), end_pool_index(params), added));
    }

    /// Remove all systems with the given origin
    ///
    /// # Arguments
    /// * `origin` - An identifier for the origin of the system, used for hot reload
    ///
    pub fn unload_origin(&mut self, origin: &str)
        requires
            old(self).wf(),
        ensures
            final(self).wf(),
            final(self).paused() == old(self).paused(),
            final(self).frame_pools() == pools_without_origin(old(self).frame_pools(), origin@),
            final(self).begin_pools() == pools_without_origin(old(self).begin_pools(), origin@),
            final(self).end_pools() == pools_without_origin(old(self).end_pools(), origin@),
            forall|j: int|
                0 <= j < final(self).frame_pools().len() ==> (#[trigger] final(self).frame_pools()[j]).2
                    == old(self).frame_pools()[j].2.filter(of_other_origin(origin@)),
            forall|j: int|
                0 <= j < final(self).begin_pools().len() ==> (#[trigger] final(self).begin_pools()[j]).2
                    == old(self).begin_pools()[j].2.filter(of_other_origin(origin@)),
            forall|j: int|
                0 <= j < final(self).end_pools().len() ==> (#[trigger] final(self).end_pools()[j]).2
                    == old(self).end_pools()[j].2.filter(of_other_origin(origin@)),
    {
        drop_origin(&mut self.system_pools, origin);
        drop_origin(&mut self.begin_system_pools, origin);
        drop_origin(&mut self.end_system_pools, origin);
        proof {
            assert forall|j: int| 0 <= j < self.frame_pools().len() implies (
            #[trigger] self.frame_pools()[j]).2 == old(self).frame_pools()[j].2.filter(
                of_other_origin(origin@),
            ) by {
                lemma_without_origin_filters(old(self).frame_pools()[j].2, origin@);
            }
            assert forall|j: int| 0 <= j < self.begin_pools().len() implies (
            #[trigger] self.begin_pools()[j]).2 == old(self).begin_pools()[j].2.filter(
                of_other_origin(origin@),
            ) by {
                lemma_without_origin_filters(old(self).begin_pools()[j].2, origin@);
            }
            assert forall|j: int| 0 <= j < self.end_pools().len() implies (
            #[trigger] self.end_pools()[j]).2 == old(self).end_pools()[j].2.filter(
                of_other_origin(origin@),
            ) by {
                lemma_without_origin_filters(old(self).end_pools()[j].2, origin@);
            }
            assert forall|i: int, j: int| 0 <= i < j < self.frame_pools().len() implies #[trigger] self.frame_pools()[i].0
                < #[trigger] self.frame_pools()[j].0 by {
                assert(self.frame_pools()[i].0 == old(self).frame_pools()[i].0);
                assert(self.frame_pools()[j].0 == old(self).frame_pools()[j].0);
            }
            assert forall|i: int, j: int| 0 <= i < j < self.begin_pools().len() implies #[trigger] self.begin_pools()[i].0
                < #[trigger] self.begin_pools()[j].0 by {
                assert(self.begin_pools()[i].0 == old(self).begin_pools()[i].0);
                assert(self.begin_pools()[j].0 == old(self).begin_pools()[j].0);
            }
            assert forall|i: int, j: int| 0 <= i < j < self.end_pools().len() implies #[trigger] self.end_pools()[i].0
                < #[trigger] self.end_pools()[j].0 by {
                assert(self.end_pools()[i].0 == old(self).end_pools()[i].0);
                assert(self.end_pools()[j].0 == old(self).end_pools()[j].0);
            }
        }
    }

    /// Decides which frame systems run this frame: returns, pool after pool
    /// by increasing index, the positions of the systems to run, which the
    /// caller runs in parallel. A pool marked to be ignored once runs
    /// nothing and loses its mark; during a pause only the systems that
    /// ignore the pause run.
    pub fn run(&mut self) -> (batches: Vec<Vec<usize>>)
        requires
            old(self).wf(),
        ensures
            final(self).wf(),
            final(self).paused() == old(self).paused(),
            final(self).begin_pools() == old(self).begin_pools(),
            final(self).end_pools() == old(self).end_pools(),
            final(self).frame_pools() == marks_cleared(old(self).frame_pools()),
            batches@.len() == old(self).frame_pools().len(),
            forall|j: int|
                0 <= j < old(self).frame_pools().len() ==> #[trigger] batches@[j]@ == frame_batch(
                    old(self).frame_pools()[j],
                    old(self).paused(),
                ),
    {
        let paused = self.pause;
        let batches = schedule_frames(&mut self.system_pools, paused);
        proof {
            assert forall|j: int| 0 <= j < old(self).frame_pools().len() implies #[trigger] batches@[j]@
                == if old(self).frame_pools()[j].1 {
                Seq::<usize>::empty()
            } else {
                runnable_positions(old(self).frame_pools()[j].2, old(self).paused())
            } by {
                assert(old(self).frame_pools()[j] == (
                    old(self).system_pools@[j].0,
                    old(self).system_pools@[j].1.ignore_once,
                    old(self).system_pools@[j].1.systems@,
                ));
            }
        }
        batches
    }

    /// Decides which begin systems run: returns, pool after pool by
    /// increasing index, the positions of the systems to run. A pool marked
    /// to be ignored once runs nothing and loses its mark.
    pub fn run_begin(&mut self) -> (batches: Vec<Vec<usize>>)
        requires
            old(self).wf(),
        ensures
            final(self).wf(),
            final(self).paused() == old(self).paused(),
            final(self).frame_pools() == old(self).frame_pools(),
            final(self).end_pools() == old(self).end_pools(),
            final(self).begin_pools() == marks_cleared(old(self).begin_pools()),
            batches@.len() == old(self).begin_pools().len(),
            forall|j: int|
                0 <= j < old(self).begin_pools().len() ==> #[trigger] batches@[j]@ == pool_batch(
                    old(self).begin_pools()[j],
                ),
    {
        let batches = schedule_all(&mut self.begin_system_pools);
        proof {
            assert forall|j: int| 0 <= j < old(self).begin_pools().len() implies #[trigger] batches@[j]@
                == if old(self).begin_pools()[j].1 {
                Seq::<usize>::empty()
            } else {
                all_positions(old(self).begin_pools()[j].2.len())
            } by {
                assert(old(self).begin_pools()[j] == (
                    old(self).begin_system_pools@[j].0,
                    old(self).begin_system_pools@[j].1.ignore_once,
                    old(self).begin_system_pools@[j].1.systems@,
                ));
            }
        }
        batches
    }

    /// Decides which end systems run: returns, pool after pool by
    /// increasing index, the positions of the systems to run. A pool marked
    /// to be ignored once runs nothing and loses its mark.
    pub fn run_end(&mut self) -> (batches: Vec<Vec<usize>>)
        requires
            old(self).wf(),
        ensures
            final(self).wf(),
            final(self).paused() == old(self).paused(),
            final(self).frame_pools() == old(self).frame_pools(),
            final(self).begin_pools() == old(self).begin_pools(),
            final(self).end_pools() == marks_cleared(old(self).end_pools()),
            batches@.len() == old(self).end_pools().len(),
            forall|j: int|
                0 <= j < old(self).end_pools().len() ==> #[trigger] batches@[j]@ == pool_batch(
                    old(self).end_pools()[j],
                ),
    {
        let batches = schedule_all(&mut self.end_system_pools);
        proof {
            assert forall|j: int| 0 <= j < old(self).end_pools().len() implies #[trigger] batches@[j]@
                == if old(self).end_pools()[j].1 {
                Seq::<usize>::empty()
            } else {
                all_positions(old(self).end_pools()[j].2.len())
            } by {
                assert(old(self).end_pools()[j] == (
                    old(self).end_system_pools@[j].0,
                    old(self).end_system_pools@[j].1.ignore_once,
                    old(self).end_system_pools@[j].1.systems@,
                ));
            }
        }
        batches
    }

    /// The callback of frame system `system` of the pool at `pool_position`.
    pub fn frame_callback(&self, pool_position: usize, system: usize) -> (callback: &C)
        requires
            pool_position < self.frame_pools().len(),
            system < self.frame_pools()[pool_position as int].2.len(),
        ensures
            *callback == self.frame_pools()[pool_position as int].2[system as int].callback,
    {
        &self.system_pools[pool_position].1.systems[system].callback
    }

    /// The callback of begin system `system` of the pool at `pool_position`.
    pub fn begin_callback(&self, pool_position: usize, system: usize) -> (callback: &C)
        requires
            pool_position < self.begin_pools().len(),
            system < self.begin_pools()[pool_position as int].2.len(),
        ensures
            *callback == self.begin_pools()[pool_position as int].2[system as int].callback,
    {
        &self.begin_system_pools[pool_position].1.systems[system].callback
    }

    /// The callback of end system `system` of the pool at `pool_position`.
    pub fn end_callback(&self, pool_position: usize, system: usize) -> (callback: &C)
        requires
            pool_position < self.end_pools().len(),
            system < self.end_pools()[pool_position as int].2.len(),
        ensures
            *callback == self.end_pools()[pool_position as int].2[system as int].callback,
    {
        &self.end_system_pools[pool_position].1.systems[system].callback
    }

    /// The callbacks of the systems of the pool `index`, to run in parallel;
    /// none when there is no such pool.
    pub fn run_pool(&self, index: usize) -> (callbacks: Vec<&C>)
        requires
            self.wf(),
        ensures
            callbacks@.len() == pool_systems(self.frame_pools(), index).len(),
            forall|i: int|
                0 <= i < callbacks@.len() ==> *(#[trigger] callbacks@[i]) == pool_systems(
                    self.frame_pools(),
                    index,
                )[i].callback,
    {
        let mut callbacks: Vec<&C> = Vec::new();
        match find_pool(&self.system_pools, index) {
            Some(j) => {
                let ghost view = self.frame_pools();
                proof {
                    assert(view[j as int].0 == index);
                    let c = choose|m: int| 0 <= m < view.len() && #[trigger] view[m].0 == index;
                    if c != j {
                        if c < j {
                            assert(view[c].0 < view[j as int].0);
                        } else {
                            assert(view[j as int].0 < view[c].0);
                        }
                    }
                    assert(pool_systems(view, index) == self.system_pools@[j as int].1.systems@);
                }
                let systems = &self.system_pools[j].1.systems;
                let n = systems.len();
                let mut k: usize = 0;
                while k < n
                    invariant
                        n == systems@.len(),
                        k <= n,
                        callbacks@.len() == k,
                        forall|i: int| 0 <= i < k ==> *(#[trigger] callbacks@[i]) == systems@[i].callback,
                    decreases n - k,
                {
                    callbacks.push(&systems[k].callback);
                    k = k + 1;
                }
            },
            None => {
                proof {
                    assert(!exists|m: int| 0 <= m < self.frame_pools().len() && #[trigger] self.frame_pools()[m].0 == index);
                }
            },
        }
        callbacks
    }

    /// The callbacks of the begin systems of the pool `index`, to run in parallel;
    /// none when there is no such pool.
    pub fn run_pool_begin(&self, index: usize) -> (callbacks: Vec<&C>)
        requires
            self.wf(),
        ensures
            callbacks@.len() == pool_systems(self.begin_pools(), index).len(),
            forall|i: int|
                0 <= i < callbacks@.len() ==> *(#[trigger] callbacks@[i]) == pool_systems(
                    self.begin_pools(),
                    index,
                )[i].callback,
    {
        let mut callbacks: Vec<&C> = Vec::new();
        match find_pool(&self.begin_system_pools, index) {
            Some(j) => {
                let ghost view = self.begin_pools();
                proof {
                    assert(view[j as int].0 == index);
                    let c = choose|m: int| 0 <= m < view.len() && #[trigger] view[m].0 == index;
                    if c != j {
                        if c < j {
                            assert(view[c].0 < view[j as int].0);
                        } else {
                            assert(view[j as int].0 < view[c].0);
                        }
                    }
                    assert(pool_systems(view, index) == self.begin_system_pools@[j as int].1.systems@);
                }
                let systems = &self.begin_system_pools[j].1.systems;
                let n = systems.len();
                let mut k: usize = 0;
                while k < n
                    invariant
                        n == systems@.len(),
                        k <= n,
                        callbacks@.len() == k,
                        forall|i: int| 0 <= i < k ==> *(#[trigger] callbacks@[i]) == systems@[i].callback,
                    decreases n - k,
                {
                    callbacks.push(&systems[k].callback);
                    k = k + 1;
                }
            },
            None => {
                proof {
                    assert(!exists|m: int| 0 <= m < self.begin_pools().len() && #[trigger] self.begin_pools()[m].0 == index);
                }
            },
        }
        callbacks
    }

    /// The callbacks of the end systems of the pool `index`, to run in parallel;
    /// none when there is no such pool.
    pub fn run_poll_end(&self, index: usize) -> (callbacks: Vec<&C>)
        requires
            self.wf(),
        ensures
            callbacks@.len() == pool_systems(self.end_pools(), index).len(),
            forall|i: int|
                0 <= i < callbacks@.len() ==> *(#[trigger] callbacks@[i]) == pool_systems(
                    self.end_pools(),
                    index,
                )[i].callback,
    {
        let mut callbacks: Vec<&C> = Vec::new();
        match find_pool(&self.end_system_pools, index) {
            Some(j) => {
                let ghost view = self.end_pools();
                proof {
                    assert(view[j as int].0 == index);
                    let c = choose|m: int| 0 <= m < view.len() && #[trigger] view[m].0 == index;
                    if c != j {
                        if c < j {
                            assert(view[c].0 < view[j as int].0);
                        } else {
                            assert(view[j as int].0 < view[c].0);
                        }
                    }
                    assert(pool_systems(view, index) == self.end_system_pools@[j as int].1.systems@);
                }
                let systems = &self.end_system_pools[j].1.systems;
                let n = systems.len();
                let mut k: usize = 0;
                while k < n
                    invariant
                        n == systems@.len(),
                        k <= n,
                        callbacks@.len() == k,
                        forall|i: int| 0 <= i < k ==> *(#[trigger] callbacks@[i]) == systems@[i].callback,
                    decreases n - k,
                {
                    callbacks.push(&systems[k].callback);
                    k = k + 1;
                }
            },
            None => {
                proof {
                    assert(!exists|m: int| 0 <= m < self.end_pools().len() && #[trigger] self.end_pools()[m].0 == index);
                }
            },
        }
        callbacks
    }

    /// Marks the frame pool `index`, if there is one, to be ignored at the
    /// next run.
    ///
    /// # Arguments
    /// * `index` - The pool index
    ///
    pub fn ignore_pool_once(&mut self, index: usize)
        requires
            old(self).wf(),
        ensures
            final(self).wf(),
            final(self).paused() == old(self).paused(),
            final(self).begin_pools() == old(self).begin_pools(),
            final(self).end_pools() == old(self).end_pools(),
            final(self).frame_pools() == marked_once(old(self).frame_pools(), index),
    {
        ignore_once_in(&mut self.system_pools, index);
        proof {
            let v = old(self).frame_pools();
            assert forall|j: int| 0 <= j < v.len() implies #[trigger] self.frame_pools()[j] == (
                v[j].0,
                v[j].1 || v[j].0 == index,
                v[j].2,
            ) by {
                assert(v[j] == (
                    old(self).system_pools@[j].0,
                    old(self).system_pools@[j].1.ignore_once,
                    old(self).system_pools@[j].1.systems@,
                ));
            }
            assert(self.frame_pools() =~= marked_once(v, index));
        }
    }

    /// Marks the begin pool `index`, if there is one, to be ignored at the
    /// next run.
    ///
    /// # Arguments
    /// * `index` - The pool index
    ///
    pub fn ignore_begin_pool_once(&mut self, index: usize)
        requires
            old(self).wf(),
        ensures
            final(self).wf(),
            final(self).paused() == old(self).paused(),
            final(self).frame_pools() == old(self).frame_pools(),
            final(self).end_pools() == old(self).end_pools(),
            final(self).begin_pools() == marked_once(old(self).begin_pools(), index),
    {
        ignore_once_in(&mut self.begin_system_pools, index);
        proof {
            let v = old(self).begin_pools();
            assert forall|j: int| 0 <= j < v.len() implies #[trigger] self.begin_pools()[j] == (
                v[j].0,
                v[j].1 || v[j].0 == index,
                v[j].2,
            ) by {
                assert(v[j] == (
                    old(self).begin_system_pools@[j].0,
                    old(self).begin_system_pools@[j].1.ignore_once,
                    old(self).begin_system_pools@[j].1.systems@,
                ));
            }
            assert(self.begin_pools() =~= marked_once(v, index));
        }
    }

    /// Marks the end pool `index`, if there is one, to be ignored at the
    /// next run.
    ///
    /// # Arguments
    /// * `index` - The pool index
    ///
    pub fn ignore_end_pool_once(&mut self, index: usize)
        requires
            old(self).wf(),
        ensures
            final(self).wf(),
            final(self).paused() == old(self).paused(),
            final(self).frame_pools() == old(self).frame_pools(),
            final(self).begin_pools() == old(self).begin_pools(),
            final(self).end_pools() == marked_once(old(self).end_pools(), index),
    {
        ignore_once_in(&mut self.end_system_pools, index);
        proof {
            let v = old(self).end_pools();
            assert forall|j: int| 0 <= j < v.len() implies #[trigger] self.end_pools()[j] == (
                v[j].0,
                v[j].1 || v[j].0 == index,
                v[j].2,
            ) by {
                assert(v[j] == (
                    old(self).end_system_pools@[j].0,
                    old(self).end_system_pools@[j].1.ignore_once,
                    old(self).end_system_pools@[j].1.systems@,
                ));
            }
            assert(self.end_pools() =~= marked_once(v, index));
        }
    }

    /// Is systems paused
    pub fn is_paused(&self) -> (paused: bool)
        ensures
            paused == self.paused(),
    {
        self.pause
    }

    /// Set if systems are paused, only systems that ignore pause will be executed
    ///
    /// # Arguments
    /// * `paused` - The paused value
    ///
    pub fn set_paused(&mut self, paused: bool)
        ensures
            final(self).paused() == paused,
            final(self).frame_pools() == old(self).frame_pools(),
            final(self).begin_pools() == old(self).begin_pools(),
            final(self).end_pools() == old(self).end_pools(),
    {
        self.pause = paused;
    }
}


/// A frame pool marked to be skipped runs nothing at the next run and, that
/// run having cleared its mark, runs its systems again at the run after; the
/// mark changes nothing for the other pools.
pub proof fn lemma_frame_pool_skipped_once<C>(
    pools: Seq<(usize, bool, Seq<FrameSystem<C>>)>,
    index: usize,
    paused: bool,
)
    ensures
        forall|j: int|
            0 <= j < pools.len() && pools[j].0 == index ==> frame_batch(
                #[trigger] marked_once(pools, index)[j],
                paused,
            ) == Seq::<usize>::empty() && frame_batch(
                marks_cleared(marked_once(pools, index))[j],
                paused,
            ) == runnable_positions(pools[j].2, paused),
        forall|j: int|
            0 <= j < pools.len() && pools[j].0 != index ==> frame_batch(
                #[trigger] marked_once(pools, index)[j],
                paused,
            ) == frame_batch(pools[j], paused),
{
}

/// The positions a frame pool runs lie among its systems and increase.
proof fn lemma_runnable_positions_increase<C>(systems: Seq<FrameSystem<C>>, paused: bool)
    requires
        systems.len() <= usize::MAX,
    ensures
        forall|i: int|
            0 <= i < runnable_positions(systems, paused).len() ==> #[trigger] runnable_positions(
                systems,
                paused,
            )[i] < systems.len(),
        forall|i: int, j: int|
            0 <= i < j < runnable_positions(systems, paused).len() ==> #[trigger] runnable_positions(
                systems,
                paused,
            )[i] < #[trigger] runnable_positions(systems, paused)[j],
    decreases systems.len(),
{
    if systems.len() > 0 {
        let rest = systems.drop_last();
        lemma_runnable_positions_increase(rest, paused);
        let prev = runnable_positions(rest, paused);
        let all = runnable_positions(systems, paused);
        assert forall|i: int| 0 <= i < all.len() implies #[trigger] all[i] < systems.len() by {
            if i < prev.len() {
                assert(all[i] == prev[i]);
            }
        }
        assert forall|i: int, j: int| 0 <= i < j < all.len() implies #[trigger] all[i]
            < #[trigger] all[j] by {
            assert(all[i] == prev[i]);
            if j < prev.len() {
                assert(all[j] == prev[j]);
            }
        }
    }
}

/// Position `k` is run exactly when its system may run.
proof fn lemma_runnable_position<C>(systems: Seq<FrameSystem<C>>, paused: bool, k: int)
    requires
        systems.len() <= usize::MAX,
        0 <= k < systems.len(),
    ensures
        runnable_positions(systems, paused).contains(k as usize) <==> (!paused
            || systems[k].ignore_pause),
    decreases systems.len(),
{
    let rest = systems.drop_last();
    let n = systems.len() - 1;
    let prev = runnable_positions(rest, paused);
    let all = runnable_positions(systems, paused);
    lemma_runnable_positions_increase(rest, paused);
    if k < n {
        lemma_runnable_position(rest, paused, k);
        assert(rest[k] == systems[k]);
        if all.contains(k as usize) {
            let i = choose|i: int| 0 <= i < all.len() && all[i] == k as usize;
            if i < prev.len() {
                assert(all[i] == prev[i]);
            } else {
                assert(all[i] == n as usize);
            }
        }
        if prev.contains(k as usize) {
            let i = choose|i: int| 0 <= i < prev.len() && prev[i] == k as usize;
            assert(all[i] == prev[i]);
        }
    } else {
        assert(systems[k] == systems.last());
        if all.contains(k as usize) && !(!paused || systems.last().ignore_pause) {
            let i = choose|i: int| 0 <= i < all.len() && all[i] == k as usize;
            assert(all[i] == prev[i]);
        }
        if !paused || systems.last().ignore_pause {
            assert(all[prev.len() as int] == n as usize);
        }
    }
}

/// The positions a frame pool runs are, in increasing order and so each
/// once, positions of its systems, and position `k` is among them exactly
/// when its system may run: always, or during a pause when it ignores it.
/// `SystemService::lemma_pools_fit` gives the bound on the number of
/// systems of every pool of a service.
pub proof fn lemma_runnable_positions<C>(systems: Seq<FrameSystem<C>>, paused: bool, k: int)
    requires
        systems.len() <= usize::MAX,
        0 <= k < systems.len(),
    ensures
        forall|i: int|
            0 <= i < runnable_positions(systems, paused).len() ==> #[trigger] runnable_positions(
                systems,
                paused,
            )[i] < systems.len(),
        forall|i: int, j: int|
            0 <= i < j < runnable_positions(systems, paused).len() ==> #[trigger] runnable_positions(
                systems,
                paused,
            )[i] < #[trigger] runnable_positions(systems, paused)[j],
        runnable_positions(systems, paused).contains(k as usize) <==> (!paused
            || systems[k].ignore_pause),
{
    lemma_runnable_positions_increase(systems, paused);
    lemma_runnable_position(systems, paused, k);
}

/// A begin or end pool marked to be skipped runs nothing at the next run
/// and, that run having cleared its mark, runs all its systems at the run
/// after; the mark changes nothing for the other pools.
pub proof fn lemma_pool_skipped_once<T>(pools: Seq<(usize, bool, Seq<T>)>, index: usize)
    ensures
        forall|j: int|
            0 <= j < pools.len() && pools[j].0 == index ==> pool_batch(
                #[trigger] marked_once(pools, index)[j],
            ) == Seq::<usize>::empty() && pool_batch(marks_cleared(marked_once(pools, index))[j])
                == all_positions(pools[j].2.len()),
        forall|j: int|
            0 <= j < pools.len() && pools[j].0 != index ==> pool_batch(
                #[trigger] marked_once(pools, index)[j],
            ) == pool_batch(pools[j]),
{
}

/// A frame system just added comes last in its pool, after the systems the
/// pool held before; at the next run of that pool, unless the system is
/// paused, it runs last of its batch, after those of the others that run.
pub proof fn lemma_added_system_runs<C>(
    before: Seq<(usize, bool, Seq<FrameSystem<C>>)>,
    after: Seq<(usize, bool, Seq<FrameSystem<C>>)>,
    index: usize,
    system: FrameSystem<C>,
    paused: bool,
)
    requires
        pools_sorted(before),
        pool_added(before, after, index, system),
    ensures
        exists|j: int|
            0 <= j < after.len() && #[trigger] after[j].0 == index && after[j].2 == pool_systems(
                before,
                index,
            ).push(system) && ((!paused || system.ignore_pause) ==> runnable_positions(
                after[j].2,
                paused,
            ) == runnable_positions(pool_systems(before, index), paused).push(
                pool_systems(before, index).len() as usize,
            )),
{
    if exists|j: int|
        0 <= j < before.len() && #[trigger] before[j].0 == index && after == before.update(
            j,
            (index, before[j].1, before[j].2.push(system)),
        ) {
        let j = choose|j: int|
            0 <= j < before.len() && #[trigger] before[j].0 == index && after == before.update(
                j,
                (index, before[j].1, before[j].2.push(system)),
            );
        let k = choose|k: int| 0 <= k < before.len() && #[trigger] before[k].0 == index;
        if k < j {
            assert(before[k].0 < before[j].0);
        } else if j < k {
            assert(before[j].0 < before[k].0);
        }
        assert(pool_systems(before, index) == before[j].2);
        assert(after[j].2.drop_last() =~= before[j].2);
        assert(after[j].0 == index);
    } else {
        let pos = choose|pos: int|
            0 <= pos <= before.len() && after == before.insert(pos, (index, false, seq![system]))
                && (forall|i: int| 0 <= i < pos ==> #[trigger] before[i].0 < index) && (forall|i: int|
                pos <= i < before.len() ==> #[trigger] before[i].0 > index);
        assert(pool_systems(before, index) == Seq::<FrameSystem<C>>::empty());
        assert(after[pos] == (index, false, seq![system]));
        assert(after[pos].2 =~= Seq::<FrameSystem<C>>::empty().push(system));
        assert(after[pos].2.drop_last() =~= Seq::<FrameSystem<C>>::empty());
        assert(after[pos].0 == index);
    }
}

} // verus!
