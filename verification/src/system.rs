//! Systems and schedules: which queries run in which order, the command
//! queue of each schedule, and the phases of an update of the world.
//!
//! What a system does with the rows of its query is the caller's: between
//! two steps of an update the caller runs the system that the step named.

use vstd::prelude::*;
use crate::archetype::ArchetypeView;
use crate::command::{applied, effect, lemma_applied_push, CommandQueue, CommandView};
use crate::component::ComponentID;
use crate::entity::Entity;
use crate::filter::FilterView;
use crate::graph_spec::sets_kept;
use crate::query::Query;
use crate::world::World;

verus! {

/// `post` has the entities, components and registry of `pre`: they differ
/// in trackers, in the queue of new archetypes and in the tick at most.
pub open spec fn same_store(pre: World, post: World) -> bool {
    &&& post.wf()
    &&& post.registry() == pre.registry()
    &&& post.directory() == pre.directory()
    &&& forall|e: Entity| post.spent(e) == pre.spent(e)
    &&& post.is_full() == pre.is_full()
    &&& post.archetypes().len() == pre.archetypes().len()
    &&& sets_kept(pre.archetypes(), post.archetypes())
    &&& forall|x: Entity, c: ComponentID| post.component(x, c) == pre.component(x, c)
    &&& forall|x: Entity| post.components(x) == pre.components(x)
}

/// The tick after `tick`, which stays where it is once it is `u32::MAX`.
pub open spec fn next_tick(tick: u32) -> u32 {
    if tick < u32::MAX {
        (tick + 1) as u32
    } else {
        u32::MAX
    }
}

/// The archetype `a` after the queries with the filters `filters` were
/// synced at `tick`, one after the other.
pub open spec fn synced_by(filters: Seq<FilterView>, a: ArchetypeView, tick: u32) -> ArchetypeView
    decreases filters.len(),
{
    if filters.len() == 0 {
        a
    } else {
        filters.last().synced(synced_by(filters.drop_last(), a, tick), tick)
    }
}

/// `post` is `pre` after the queries with the filters `filters` were
/// synced, one after the other: every archetype is as these syncs leave
/// it, and nothing else has changed.
pub open spec fn synced_world(pre: World, filters: Seq<FilterView>, post: World) -> bool {
    &&& same_store(pre, post)
    &&& post.new_archetypes() == pre.new_archetypes()
    &&& post.current_tick() == pre.current_tick()
    &&& forall|j: int|
        0 <= j < pre.archetypes().len() ==> #[trigger] post.archetypes()[j] == synced_by(
            filters,
            pre.archetypes()[j],
            pre.current_tick(),
        )
}

/// `post` is `pre` at the end of an update: the queries with the filters
/// `filters` were synced, the queue of new archetypes was emptied and the
/// tick went up by one.
pub open spec fn update_ended(pre: World, filters: Seq<FilterView>, post: World) -> bool {
    &&& same_store(pre, post)
    &&& post.new_archetypes().len() == 0
    &&& post.current_tick() == next_tick(pre.current_tick())
    &&& forall|j: int|
        0 <= j < pre.archetypes().len() ==> #[trigger] post.archetypes()[j] == synced_by(
            filters,
            pre.archetypes()[j],
            pre.current_tick(),
        )
}

/// Syncing the queries of one list and then those of another is syncing
/// those of both in a row.
pub proof fn lemma_synced_concat(
    first: Seq<FilterView>,
    second: Seq<FilterView>,
    a: ArchetypeView,
    tick: u32,
)
    ensures
        synced_by(first + second, a, tick) == synced_by(second, synced_by(first, a, tick), tick),
    decreases second.len(),
{
    if second.len() == 0 {
        assert(first + second =~= first);
    } else {
        lemma_synced_concat(first, second.drop_last(), a, tick);
        assert((first + second).drop_last() =~= first + second.drop_last());
        assert((first + second).last() == second.last());
    }
}

/// Executing commands leaves the world well-formed, with every archetype
/// that it had, under its set, at the same tick.
pub proof fn lemma_applied_keeps_sets(pre: World, cmds: Seq<CommandView>, post: World)
    requires
        pre.wf(),
        applied(pre, cmds, post),
    ensures
        post.wf(),
        sets_kept(pre.archetypes(), post.archetypes()),
        post.current_tick() == pre.current_tick(),
    decreases cmds.len(),
{
    if cmds.len() > 0 {
        let mid = choose|mid: World|
            #![trigger effect(mid, cmds.last(), post)]
            applied(pre, cmds.drop_last(), mid) && effect(mid, cmds.last(), post);
        lemma_applied_keeps_sets(pre, cmds.drop_last(), mid);
        let t0 = pre.archetypes();
        let t1 = mid.archetypes();
        let t2 = post.archetypes();
        assert forall|i: int| 0 <= i < t0.len() implies (#[trigger] t2[i]).set == t0[i].set by {
            assert(t1[i].set == t0[i].set);
        }
    }
}

/// Executing one sequence of commands and then another is executing both
/// in a row.
pub proof fn lemma_applied_concat(
    pre: World,
    first: Seq<CommandView>,
    mid: World,
    second: Seq<CommandView>,
    post: World,
)
    requires
        applied(pre, first, mid),
        applied(mid, second, post),
    ensures
        applied(pre, first + second, post),
    decreases second.len(),
{
    if second.len() == 0 {
        assert(first + second =~= first);
    } else {
        let before = choose|before: World|
            #![trigger effect(before, second.last(), post)]
            applied(mid, second.drop_last(), before) && effect(before, second.last(), post);
        lemma_applied_concat(pre, first, mid, second.drop_last(), before);
        lemma_applied_push(pre, first + second.drop_last(), before, second.last(), post);
        assert((first + second.drop_last()).push(second.last()) =~= first + second);
    }
}

/// A query with the tick at which it last ran.
pub struct System {
    query: Query,
    last_update: u32,
}

impl System {
    /// A system for `query` that has not run yet.
    pub fn new(query: Query) -> (r: Self)
        ensures
            r.query_view() == query,
            r.last_run() == 0,
    {
        Self { query, last_update: 0 }
    }

    /// The query.
    pub closed spec fn query_view(&self) -> Query {
        self.query
    }

    /// The tick at which the system last ran.
    pub closed spec fn last_run(&self) -> u32 {
        self.last_update
    }

    /// The query.
    pub fn query(&self) -> (r: &Query)
        ensures
            *r == self.query_view(),
    {
        &self.query
    }

    /// The tick at which the system last ran.
    pub fn last_update(&self) -> (r: u32)
        ensures
            r == self.last_run(),
    {
        self.last_update
    }

    /// A schedule of this system alone.
    pub fn into_schedule(self) -> (r: Schedule)
        ensures
            r.systems() == seq![self],
            r.queued() == Seq::<CommandView>::empty(),
            r.commands_wf(),
    {
        let mut systems: Vec<System> = Vec::new();
        systems.push(self);
        Schedule::new(systems, CommandQueue::new())
    }

    /// Records that the system ran at the tick of `world`.
    pub fn run(&mut self, world: &World)
        ensures
            final(self).query_view() == old(self).query_view(),
            final(self).last_run() == world.current_tick(),
    {
        self.last_update = world.tick();
    }

    /// Brings the query of the system up to date with `world`.
    pub fn sync(&mut self, world: &mut World)
        requires
            old(world).wf(),
            old(self).query_view().wf(),
            old(self).query_view().built_on(old(world).archetypes()),
        ensures
            World::queried(*old(world), *final(world), final(self).query_view(), true),
            final(self).last_run() == old(self).last_run(),
            final(self).query_view().bundle() == old(self).query_view().bundle(),
            final(self).query_view().resources() == old(self).query_view().resources(),
            final(self).query_view().filters() == old(self).query_view().filters(),
    {
        world.sync_query(&mut self.query);
    }
}

/// Collects the systems of a schedule.
pub struct ScheduleBuilder {
    systems: Vec<System>,
}

impl ScheduleBuilder {
    /// The systems collected, in order.
    pub closed spec fn systems(&self) -> Seq<System> {
        self.systems@
    }

    /// A builder without systems.
    pub fn new() -> (r: Self)
        ensures
            r.systems() == Seq::<System>::empty(),
    {
        Self { systems: Vec::new() }
    }

    /// Adds `system` after the systems collected so far.
    pub fn add(self, system: System) -> (r: Self)
        ensures
            r.systems() == self.systems().push(system),
    {
        let mut this = self;
        this.systems.push(system);
        this
    }

    /// The schedule of the systems collected, with an empty command queue.
    pub fn build(self) -> (r: Schedule)
        ensures
            r.systems() == self.systems(),
            r.queued() == Seq::<CommandView>::empty(),
            r.commands_wf(),
    {
        Schedule::new(self.systems, CommandQueue::new())
    }
}

/// Systems in the order in which they run, with the queue of the commands
/// that they issue.
pub struct Schedule {
    systems: Vec<System>,
    commands: CommandQueue,
}

impl Schedule {
    /// The systems, in the order in which they run.
    pub closed spec fn systems(&self) -> Seq<System> {
        self.systems@
    }

    /// The queued commands, oldest first.
    pub closed spec fn queued(&self) -> Seq<CommandView> {
        self.commands@
    }

    /// The command queue is well-formed.
    pub closed spec fn commands_wf(&self) -> bool {
        self.commands.wf()
    }

    /// The filters of the queries of the systems, in order.
    pub open spec fn filters(&self) -> Seq<FilterView> {
        Seq::new(self.systems().len(), |k: int| self.systems()[k].query_view().filters())
    }

    /// The schedule belongs to a world with the archetypes `t`: the
    /// command queue is well-formed, and every query was built on `t` or on
    /// an earlier state of it.
    pub open spec fn valid_for(&self, t: Seq<ArchetypeView>) -> bool {
        &&& self.commands_wf()
        &&& forall|i: int|
            0 <= i < self.systems().len() ==> (#[trigger] self.systems()[i]).query_view().wf()
                && self.systems()[i].query_view().built_on(t)
    }

    /// Every query holds exactly the archetypes of `t` that match it.
    pub open spec fn in_sync(&self, t: Seq<ArchetypeView>) -> bool {
        forall|i: int|
            0 <= i < self.systems().len() ==> (#[trigger] self.systems()[i]).query_view().in_sync(t)
    }

    /// `post` is `pre` after its system at position `index` ran at `tick`:
    /// that system has `tick` as its last run, and nothing else changed.
    pub open spec fn ran(pre: Schedule, post: Schedule, index: int, tick: u32) -> bool {
        &&& post.queued() == pre.queued()
        &&& post.commands_wf() == pre.commands_wf()
        &&& post.systems().len() == pre.systems().len()
        &&& forall|i: int|
            0 <= i < pre.systems().len() ==> {
                &&& (#[trigger] post.systems()[i]).query_view() == pre.systems()[i].query_view()
                &&& post.systems()[i].last_run() == (if i == index {
                    tick
                } else {
                    pre.systems()[i].last_run()
                })
            }
    }

    /// A schedule stays valid while the table only grows and no archetype
    /// changes its set.
    pub proof fn lemma_valid_later(&self, t: Seq<ArchetypeView>, t2: Seq<ArchetypeView>)
        requires
            self.valid_for(t),
            sets_kept(t, t2),
        ensures
            self.valid_for(t2),
    {
        assert forall|i: int| 0 <= i < self.systems().len() implies (
        #[trigger] self.systems()[i]).query_view().wf() && self.systems()[i].query_view().built_on(
            t2,
        ) by {
            self.systems()[i].query_view().lemma_built_on_later(t, t2);
        }
    }

    /// A schedule of `systems` with the command queue `commands`.
    pub fn new(systems: Vec<System>, commands: CommandQueue) -> (r: Self)
        ensures
            r.systems() == systems@,
            r.queued() == commands@,
            r.commands_wf() == commands.wf(),
    {
        Self { systems, commands }
    }

    /// Adds `system` after the systems of the schedule.
    pub fn add(&mut self, system: System)
        ensures
            final(self).systems() == old(self).systems().push(system),
            final(self).queued() == old(self).queued(),
            final(self).commands_wf() == old(self).commands_wf(),
    {
        self.systems.push(system);
    }

    /// The number of systems.
    pub fn len(&self) -> (n: usize)
        ensures
            n == self.systems().len(),
    {
        self.systems.len()
    }

    /// The system at position `index`.
    pub fn system(&self, index: usize) -> (r: &System)
        requires
            index < self.systems().len(),
        ensures
            *r == self.systems()[index as int],
    {
        &self.systems[index]
    }

    /// The command queue, for a system to queue commands on.
    pub fn commands(&mut self) -> (r: &mut CommandQueue)
        ensures
            r.wf() == old(self).commands_wf(),
            r@ == old(self).queued(),
            final(self).systems() == old(self).systems(),
            final(self).queued() == final(r)@,
            final(self).commands_wf() == final(r).wf(),
    {
        &mut self.commands
    }

    /// The system at position `index` together with the command queue, for
    /// the run of that system.
    pub fn split(&mut self, index: usize) -> (r: (&System, &mut CommandQueue))
        requires
            index < old(self).systems().len(),
        ensures
            *r.0 == old(self).systems()[index as int],
            r.1.wf() == old(self).commands_wf(),
            r.1@ == old(self).queued(),
            final(self).systems() == old(self).systems(),
            final(self).queued() == final(r.1)@,
            final(self).commands_wf() == final(r.1).wf(),
    {
        (&self.systems[index], &mut self.commands)
    }

    /// Records that the system at position `index` ran at the tick of
    /// `world`.
    pub fn system_ran(&mut self, index: usize, world: &World)
        requires
            index < old(self).systems().len(),
        ensures
            Schedule::ran(*old(self), *final(self), index as int, world.current_tick()),
    {
        self.systems[index].run(world);
    }

    /// Executes the queued commands on `world`, oldest first, and empties
    /// the queue.
    pub fn flush_commands(&mut self, world: &mut World)
        requires
            old(world).wf(),
            old(self).commands_wf(),
        ensures
            final(world).wf(),
            applied(*old(world), old(self).queued(), *final(world)),
            final(self).systems() == old(self).systems(),
            final(self).queued() == Seq::<CommandView>::empty(),
            final(self).commands_wf(),
    {
        self.commands.flush(world);
    }

    /// Brings the query of every system up to date with `world`, in the
    /// order of the systems.
    pub fn sync(&mut self, world: &mut World)
        requires
            old(world).wf(),
            old(self).valid_for(old(world).archetypes()),
        ensures
            synced_world(*old(world), old(self).filters(), *final(world)),
            final(self).valid_for(final(world).archetypes()),
            final(self).in_sync(final(world).archetypes()),
            final(self).queued() == old(self).queued(),
            final(self).systems().len() == old(self).systems().len(),
            final(self).filters() == old(self).filters(),
            forall|i: int|
                0 <= i < old(self).systems().len() ==> (#[trigger] final(self).systems()[i]).last_run()
                    == old(self).systems()[i].last_run(),
    {
        let ghost all = self.filters();
        let ghost w0 = *world;
        let n = self.systems.len();
        let mut i: usize = 0;
        assert(all.take(0) =~= Seq::<FilterView>::empty());
        while i < n
            invariant
                i <= n,
                n == self.systems().len(),
                n == old(self).systems().len(),
                all == old(self).filters(),
                w0 == *old(world),
                self.filters() == all,
                synced_world(w0, all.take(i as int), *world),
                self.valid_for(world.archetypes()),
                self.queued() == old(self).queued(),
                forall|k: int|
                    0 <= k < i ==> (#[trigger] self.systems()[k]).query_view().in_sync(
                        world.archetypes(),
                    ),
                forall|k: int|
                    0 <= k < n ==> (#[trigger] self.systems()[k]).last_run() == old(
                        self,
                    ).systems()[k].last_run(),
            decreases n - i,
        {
            let ghost before = *world;
            let ghost systems_before = self.systems();
            let system = &mut self.systems[i];
            system.sync(world);
            proof {
                let t0 = w0.archetypes();
                let t1 = before.archetypes();
                let t2 = world.archetypes();
                assert forall|k: int| 0 <= k < n && k != i implies #[trigger] self.systems()[k]
                    == systems_before[k] by {}
                assert forall|k: int| 0 <= k < n implies (#[trigger] self.systems()[k]).query_view().wf()
                    && self.systems()[k].query_view().built_on(t2) by {
                    if k != i {
                        systems_before[k].query_view().lemma_built_on_later(t1, t2);
                    }
                }
                assert forall|k: int| 0 <= k < i + 1 implies (
                #[trigger] self.systems()[k]).query_view().in_sync(t2) by {
                    if k != i {
                        systems_before[k].query_view().lemma_built_on_later(t1, t2);
                    }
                }
                assert forall|j: int| 0 <= j < t0.len() implies (#[trigger] t2[j]).set
                    == t0[j].set by {
                    assert(t1[j].set == t0[j].set);
                }
                assert forall|k: int| 0 <= k < n implies self.filters()[k] == all[k] by {
                    assert(all[k] == systems_before[k].query_view().filters());
                }
                assert(self.filters() =~= all);
                assert(all.take(i + 1).drop_last() =~= all.take(i as int));
                assert(all.take(i + 1).last() == all[i as int]);
                assert forall|j: int| 0 <= j < t0.len() implies #[trigger] t2[j] == synced_by(
                    all.take(i + 1),
                    t0[j],
                    w0.current_tick(),
                ) by {
                    assert(t1[j] == synced_by(all.take(i as int), t0[j], w0.current_tick()));
                }
            }
            i = i + 1;
        }
        assert(all.take(n as int) =~= all);
    }

    /// What follows the run of the systems of the schedule: the queued
    /// commands are executed and the queries are brought up to date.
    pub fn update(&mut self, world: &mut World)
        requires
            old(world).wf(),
            old(self).valid_for(old(world).archetypes()),
        ensures
            final(world).wf(),
            exists|mid: World|
                #![trigger synced_world(mid, old(self).filters(), *final(world))]
                applied(*old(world), old(self).queued(), mid) && synced_world(
                    mid,
                    old(self).filters(),
                    *final(world),
                ),
            final(self).valid_for(final(world).archetypes()),
            final(self).in_sync(final(world).archetypes()),
            final(self).queued() == Seq::<CommandView>::empty(),
            final(self).systems().len() == old(self).systems().len(),
            final(self).filters() == old(self).filters(),
    {
        self.flush_commands(world);
        let ghost mid = *world;
        proof {
            lemma_applied_keeps_sets(*old(world), old(self).queued(), mid);
            self.lemma_valid_later(old(world).archetypes(), mid.archetypes());
        }
        self.sync(world);
        assert(applied(*old(world), old(self).queued(), mid) && synced_world(
            mid,
            old(self).filters(),
            *world,
        ));
    }
}

/// The commands queued on the schedules from position `from` on, schedule
/// by schedule, oldest first.
pub open spec fn queued_from(schedules: Seq<Schedule>, from: int) -> Seq<CommandView>
    decreases schedules.len() - from,
{
    if from < 0 || from >= schedules.len() {
        Seq::empty()
    } else {
        schedules[from].queued() + queued_from(schedules, from + 1)
    }
}

/// The filters of the queries of the first `n` schedules, schedule by
/// schedule, in the order of the systems.
pub open spec fn filters_upto(schedules: Seq<Schedule>, n: int) -> Seq<FilterView>
    decreases n,
{
    if n <= 0 || n > schedules.len() {
        Seq::empty()
    } else {
        filters_upto(schedules, n - 1) + schedules[n - 1].filters()
    }
}

/// Where two lists of schedules have the same filters schedule by
/// schedule, they have the same filters in all.
pub proof fn lemma_filters_upto(first: Seq<Schedule>, second: Seq<Schedule>, n: int)
    requires
        0 <= n <= first.len(),
        first.len() == second.len(),
        forall|k: int| 0 <= k < n ==> (#[trigger] first[k]).filters() == second[k].filters(),
    ensures
        filters_upto(first, n) == filters_upto(second, n),
    decreases n,
{
    if n > 0 {
        lemma_filters_upto(first, second, n - 1);
        assert(first[n - 1].filters() == second[n - 1].filters());
    }
}

/// Whether `p` names a system: a schedule and a position in it.
pub open spec fn names_system(schedules: Seq<Schedule>, p: (usize, usize)) -> bool {
    p.0 < schedules.len() && p.1 < schedules[p.0 as int].systems().len()
}

/// Whether the system `p` runs before the system `q`.
pub open spec fn runs_before(p: (usize, usize), q: (usize, usize)) -> bool {
    p.0 < q.0 || (p.0 == q.0 && p.1 < q.1)
}

/// Whether the system `p` runs after `after`; every system runs after
/// `None`.
pub open spec fn runs_after(after: Option<(usize, usize)>, p: (usize, usize)) -> bool {
    match after {
        Some(a) => runs_before(a, p),
        None => true,
    }
}

/// Whether `next` is the system to run after `after`: the first that runs
/// after it, or `None` where no system does.
pub open spec fn follows(
    schedules: Seq<Schedule>,
    after: Option<(usize, usize)>,
    next: Option<(usize, usize)>,
) -> bool {
    match next {
        Some(q) => {
            &&& names_system(schedules, q)
            &&& runs_after(after, q)
            &&& forall|p: (usize, usize)|
                names_system(schedules, p) && runs_after(after, p) ==> !runs_before(p, q)
        },
        None => forall|p: (usize, usize)| names_system(schedules, p) ==> !runs_after(after, p),
    }
}

/// The phases of an update of the world.
#[derive(Clone, Copy, Debug, PartialEq, Eq, Structural)]
pub enum Phase {
    /// No update is under way. Only now may the world be changed from
    /// outside.
    Idle,
    /// The systems run: the system `system` of the schedule `schedule` is
    /// the one to run now.
    Running { schedule: usize, system: usize },
    /// Every system has run; the queued commands are to be executed.
    Flushing,
    /// The commands were executed; the queries are to be synced.
    Syncing,
}

/// The phase in which the system `next` is to run, or the commands are to
/// be executed where no system is left.
pub open spec fn running(next: Option<(usize, usize)>) -> Phase {
    match next {
        Some(q) => Phase::Running { schedule: q.0, system: q.1 },
        None => Phase::Flushing,
    }
}

/// The schedules of a world, in the order in which they run.
pub struct SystemManager {
    schedules: Vec<Schedule>,
}

impl SystemManager {
    /// The schedules, in the order in which they run.
    pub closed spec fn schedules(&self) -> Seq<Schedule> {
        self.schedules@
    }

    /// The filters of all queries, in the order in which they are synced.
    pub open spec fn filters(&self) -> Seq<FilterView> {
        filters_upto(self.schedules(), self.schedules().len() as int)
    }

    /// Every schedule belongs to a world with the archetypes `t`.
    pub open spec fn valid_for(&self, t: Seq<ArchetypeView>) -> bool {
        forall|i: int|
            0 <= i < self.schedules().len() ==> (#[trigger] self.schedules()[i]).valid_for(t)
    }

    /// Every query holds exactly the archetypes of `t` that match it.
    pub open spec fn in_sync(&self, t: Seq<ArchetypeView>) -> bool {
        forall|i: int| 0 <= i < self.schedules().len() ==> (#[trigger] self.schedules()[i]).in_sync(t)
    }

    /// No schedule has a command queued.
    pub open spec fn nothing_queued(&self) -> bool {
        forall|i: int|
            0 <= i < self.schedules().len() ==> (#[trigger] self.schedules()[i]).queued()
                == Seq::<CommandView>::empty()
    }

    /// `post` has the schedules of `pre` with the same systems: command
    /// queues and queries apart, nothing differs.
    pub open spec fn same_systems(pre: SystemManager, post: SystemManager) -> bool {
        &&& post.schedules().len() == pre.schedules().len()
        &&& forall|k: int|
            0 <= k < pre.schedules().len() ==> {
                &&& (#[trigger] post.schedules()[k]).systems().len()
                    == pre.schedules()[k].systems().len()
                &&& post.schedules()[k].filters() == pre.schedules()[k].filters()
                &&& forall|i: int|
                    0 <= i < pre.schedules()[k].systems().len() ==> (
                    #[trigger] post.schedules()[k].systems()[i]).last_run()
                        == pre.schedules()[k].systems()[i].last_run()
            }
    }

    /// A manager without schedules.
    pub fn new() -> (r: Self)
        ensures
            r.schedules() == Seq::<Schedule>::empty(),
    {
        Self { schedules: Vec::new() }
    }

    /// Adds `schedule` after the schedules so far.
    pub fn add(&mut self, schedule: Schedule)
        ensures
            final(self).schedules() == old(self).schedules().push(schedule),
    {
        self.schedules.push(schedule);
    }

    /// The number of schedules.
    pub fn len(&self) -> (n: usize)
        ensures
            n == self.schedules().len(),
    {
        self.schedules.len()
    }

    /// The schedule at position `index`.
    pub fn schedule(&self, index: usize) -> (r: &Schedule)
        requires
            index < self.schedules().len(),
        ensures
            *r == self.schedules()[index as int],
    {
        &self.schedules[index]
    }

    /// Mutable access to the schedule at position `index`.
    pub fn schedule_mut(&mut self, index: usize) -> (r: &mut Schedule)
        requires
            index < old(self).schedules().len(),
        ensures
            *r == old(self).schedules()[index as int],
            final(self).schedules() == old(self).schedules().update(index as int, *final(r)),
    {
        &mut self.schedules[index]
    }

    /// The system to run after the system `after`, or first where `after`
    /// is `None`: the next in the order of the schedules and, within a
    /// schedule, of its systems. `None` once every system has run.
    pub fn next_system(&self, after: Option<(usize, usize)>) -> (r: Option<(usize, usize)>)
        ensures
            follows(self.schedules(), after, r),
    {
        let mut schedule: usize = 0;
        let mut system: usize = 0;
        match after {
            Some(a) => {
                if a.0 >= self.schedules.len() {
                    return None;
                }
                schedule = a.0;
                if a.1 < self.schedules[a.0].len() {
                    system = a.1 + 1;
                } else {
                    schedule = a.0 + 1;
                    system = 0;
                }
            },
            None => {},
        }
        while schedule < self.schedules.len()
            invariant
                forall|p: (usize, usize)|
                    names_system(self.schedules(), p) && runs_after(after, p) ==> !runs_before(
                        p,
                        (schedule, system),
                    ),
                runs_after(after, (schedule, system)),
            decreases self.schedules.len() - schedule,
        {
            if system < self.schedules[schedule].len() {
                return Some((schedule, system));
            }
            schedule = schedule + 1;
            system = 0;
        }
        None
    }

    /// Executes the queued commands of every schedule on `world`, schedule
    /// by schedule.
    pub fn flush_commands(&mut self, world: &mut World)
        requires
            old(world).wf(),
            old(self).valid_for(old(world).archetypes()),
        ensures
            final(world).wf(),
            applied(*old(world), queued_from(old(self).schedules(), 0), *final(world)),
            final(self).valid_for(final(world).archetypes()),
            final(self).nothing_queued(),
            final(self).schedules().len() == old(self).schedules().len(),
            forall|k: int|
                0 <= k < old(self).schedules().len() ==> (#[trigger] final(self).schedules()[k]).systems()
                    == old(self).schedules()[k].systems(),
    {
        let ghost s0 = self.schedules();
        let ghost w0 = *world;
        let n = self.schedules.len();
        let mut i: usize = 0;
        while i < n
            invariant
                i <= n,
                n == s0.len(),
                self.schedules().len() == n,
                s0 == old(self).schedules(),
                w0 == *old(world),
                w0.wf(),
                world.wf(),
                sets_kept(w0.archetypes(), world.archetypes()),
                forall|k: int| i <= k < n ==> #[trigger] self.schedules()[k] == s0[k],
                forall|k: int|
                    0 <= k < n ==> (#[trigger] self.schedules()[k]).systems() == s0[k].systems(),
                forall|k: int|
                    0 <= k < i ==> (#[trigger] self.schedules()[k]).queued()
                        == Seq::<CommandView>::empty(),
                forall|k: int|
                    0 <= k < n ==> (#[trigger] self.schedules()[k]).valid_for(world.archetypes()),
                forall|rest: World|
                    applied(*world, queued_from(s0, i as int), rest) ==> #[trigger] applied(
                        w0,
                        queued_from(s0, 0),
                        rest,
                    ),
            decreases n - i,
        {
            let ghost before = *world;
            let ghost schedules_before = self.schedules();
            let schedule = &mut self.schedules[i];
            schedule.flush_commands(world);
            proof {
                let queued = s0[i as int].queued();
                lemma_applied_keeps_sets(before, queued, *world);
                let t0 = w0.archetypes();
                let t1 = before.archetypes();
                let t2 = world.archetypes();
                assert forall|j: int| 0 <= j < t0.len() implies (#[trigger] t2[j]).set
                    == t0[j].set by {
                    assert(t1[j].set == t0[j].set);
                }
                assert forall|k: int| 0 <= k < n && k != i implies #[trigger] self.schedules()[k]
                    == schedules_before[k] by {}
                assert forall|k: int| 0 <= k < n implies (#[trigger] self.schedules()[k]).valid_for(
                    t2,
                ) by {
                    schedules_before[k].lemma_valid_later(t1, t2);
                }
                assert forall|rest: World|
                    applied(*world, queued_from(s0, i + 1), rest) implies #[trigger] applied(
                    w0,
                    queued_from(s0, 0),
                    rest,
                ) by {
                    lemma_applied_concat(before, queued, *world, queued_from(s0, i + 1), rest);
                }
            }
            i = i + 1;
        }
        assert(applied(*world, queued_from(s0, n as int), *world));
    }

    /// Brings the query of every system of every schedule up to date with
    /// `world`, schedule by schedule.
    pub fn sync(&mut self, world: &mut World)
        requires
            old(world).wf(),
            old(self).valid_for(old(world).archetypes()),
        ensures
            synced_world(*old(world), old(self).filters(), *final(world)),
            final(self).valid_for(final(world).archetypes()),
            final(self).in_sync(final(world).archetypes()),
            SystemManager::same_systems(*old(self), *final(self)),
            final(self).filters() == old(self).filters(),
            forall|i: int|
                0 <= i < old(self).schedules().len() ==> (#[trigger] final(self).schedules()[i]).queued()
                    == old(self).schedules()[i].queued(),
    {
        let ghost s0 = self.schedules();
        let ghost w0 = *world;
        let n = self.schedules.len();
        let mut i: usize = 0;
        while i < n
            invariant
                i <= n,
                n == self.schedules().len(),
                s0 == old(self).schedules(),
                n == s0.len(),
                w0 == *old(world),
                synced_world(w0, filters_upto(s0, i as int), *world),
                self.valid_for(world.archetypes()),
                SystemManager::same_systems(*old(self), *self),
                forall|k: int|
                    0 <= k < i ==> (#[trigger] self.schedules()[k]).in_sync(world.archetypes()),
                forall|k: int|
                    0 <= k < n ==> (#[trigger] self.schedules()[k]).queued() == s0[k].queued(),
            decreases n - i,
        {
            let ghost before = *world;
            let ghost schedules_before = self.schedules();
            let schedule = &mut self.schedules[i];
            schedule.sync(world);
            proof {
                let t0 = w0.archetypes();
                let t1 = before.archetypes();
                let t2 = world.archetypes();
                assert forall|k: int| 0 <= k < n && k != i implies #[trigger] self.schedules()[k]
                    == schedules_before[k] by {}
                assert forall|k: int| 0 <= k < n implies (#[trigger] self.schedules()[k]).valid_for(
                    t2,
                ) by {
                    if k != i {
                        schedules_before[k].lemma_valid_later(t1, t2);
                    }
                }
                assert forall|k: int| 0 <= k < i + 1 implies (#[trigger] self.schedules()[k]).in_sync(
                    t2,
                ) by {
                    if k != i {
                        let s = schedules_before[k];
                        assert forall|j: int| 0 <= j < s.systems().len() implies (
                        #[trigger] s.systems()[j]).query_view().in_sync(t2) by {
                            s.systems()[j].query_view().lemma_built_on_later(t1, t2);
                        }
                    }
                }
                assert forall|j: int| 0 <= j < t0.len() implies (#[trigger] t2[j]).set
                    == t0[j].set by {
                    assert(t1[j].set == t0[j].set);
                }
                assert(schedules_before[i as int].filters() == s0[i as int].filters());
                assert forall|j: int| 0 <= j < t0.len() implies #[trigger] t2[j] == synced_by(
                    filters_upto(s0, i + 1),
                    t0[j],
                    w0.current_tick(),
                ) by {
                    assert(t1[j] == synced_by(filters_upto(s0, i as int), t0[j], w0.current_tick()));
                    lemma_synced_concat(
                        filters_upto(s0, i as int),
                        s0[i as int].filters(),
                        t0[j],
                        w0.current_tick(),
                    );
                }
            }
            i = i + 1;
        }
        proof {
            lemma_filters_upto(s0, self.schedules(), n as int);
        }
    }

    /// What follows the run of all systems in an update of the world: the
    /// queued commands of every schedule are executed, every query is
    /// brought up to date, the queue of new archetypes is emptied and the
    /// tick goes up by one.
    pub fn update(&mut self, world: &mut World)
        requires
            old(world).wf(),
            old(self).valid_for(old(world).archetypes()),
        ensures
            final(world).wf(),
            exists|mid: World|
                #![trigger update_ended(mid, old(self).filters(), *final(world))]
                applied(*old(world), queued_from(old(self).schedules(), 0), mid) && update_ended(
                    mid,
                    old(self).filters(),
                    *final(world),
                ),
            final(self).valid_for(final(world).archetypes()),
            final(self).in_sync(final(world).archetypes()),
            final(self).nothing_queued(),
            SystemManager::same_systems(*old(self), *final(self)),
    {
        self.flush_commands(world);
        let ghost mid = *world;
        let ghost flushed = *self;
        proof {
            lemma_applied_keeps_sets(*old(world), queued_from(old(self).schedules(), 0), mid);
            assert forall|k: int| 0 <= k < flushed.schedules().len() implies (
            #[trigger] flushed.schedules()[k]).filters() == old(self).schedules()[k].filters() by {
                assert(flushed.schedules()[k].systems() == old(self).schedules()[k].systems());
            }
            lemma_filters_upto(
                old(self).schedules(),
                flushed.schedules(),
                flushed.schedules().len() as int,
            );
        }
        self.finish(world);
        assert(applied(*old(world), queued_from(old(self).schedules(), 0), mid) && update_ended(
            mid,
            old(self).filters(),
            *world,
        ));
    }

    /// The end of an update: every query is brought up to date, the queue
    /// of new archetypes is emptied and the tick goes up by one.
    pub fn finish(&mut self, world: &mut World)
        requires
            old(world).wf(),
            old(self).valid_for(old(world).archetypes()),
        ensures
            update_ended(*old(world), old(self).filters(), *final(world)),
            final(self).valid_for(final(world).archetypes()),
            final(self).in_sync(final(world).archetypes()),
            SystemManager::same_systems(*old(self), *final(self)),
            final(self).filters() == old(self).filters(),
            forall|i: int|
                0 <= i < old(self).schedules().len() ==> (#[trigger] final(self).schedules()[i]).queued()
                    == old(self).schedules()[i].queued(),
    {
        self.sync(world);
        world.end_update();
        assert(sets_kept(old(world).archetypes(), world.archetypes()));
    }

    /// One step of an update of the world, from the phase `phase` to the
    /// phase that follows it.
    ///
    /// - From `Idle` the update begins: the first system is to run.
    /// - From `Running` the system named has run, which is recorded, and
    ///   the next system is to run.
    /// - Where no system is left to run, `Flushing` follows.
    /// - From `Flushing` the queued commands of every schedule are
    ///   executed, and `Syncing` follows.
    /// - From `Syncing` every query is brought up to date, the queue of new
    ///   archetypes is emptied and the tick goes up by one: the update is
    ///   over, and `Idle` follows.
    ///
    /// The world changes in the last two steps only.
    pub fn step(&mut self, world: &mut World, phase: Phase) -> (next: Phase)
        requires
            old(world).wf(),
            old(self).valid_for(old(world).archetypes()),
        ensures
            final(world).wf(),
            final(self).valid_for(final(world).archetypes()),
            final(self).schedules().len() == old(self).schedules().len(),
            match phase {
                Phase::Idle => {
                    &&& *final(world) == *old(world)
                    &&& final(self).schedules() == old(self).schedules()
                    &&& exists|q: Option<(usize, usize)>|
                        #![trigger running(q)]
                        follows(old(self).schedules(), None, q) && next == running(q)
                },
                Phase::Running { schedule, system } => {
                    &&& *final(world) == *old(world)
                    &&& exists|q: Option<(usize, usize)>|
                        #![trigger running(q)]
                        follows(old(self).schedules(), Some((schedule, system)), q) && next
                            == running(q)
                    &&& if names_system(old(self).schedules(), (schedule, system)) {
                        &&& final(self).schedules() == old(self).schedules().update(
                            schedule as int,
                            final(self).schedules()[schedule as int],
                        )
                        &&& Schedule::ran(
                            old(self).schedules()[schedule as int],
                            final(self).schedules()[schedule as int],
                            system as int,
                            old(world).current_tick(),
                        )
                    } else {
                        final(self).schedules() == old(self).schedules()
                    }
                },
                Phase::Flushing => {
                    &&& next == Phase::Syncing
                    &&& applied(*old(world), queued_from(old(self).schedules(), 0), *final(world))
                    &&& final(self).nothing_queued()
                    &&& forall|k: int|
                        0 <= k < old(self).schedules().len() ==> (
                        #[trigger] final(self).schedules()[k]).systems()
                            == old(self).schedules()[k].systems()
                },
                Phase::Syncing => {
                    &&& next == Phase::Idle
                    &&& update_ended(*old(world), old(self).filters(), *final(world))
                    &&& final(self).in_sync(final(world).archetypes())
                    &&& SystemManager::same_systems(*old(self), *final(self))
                    &&& forall|i: int|
                        0 <= i < old(self).schedules().len() ==> (
                        #[trigger] final(self).schedules()[i]).queued()
                            == old(self).schedules()[i].queued()
                },
            },
    {
        match phase {
            Phase::Idle => {
                let q = self.next_system(None);
                Self::phase_of(q)
            },
            Phase::Running { schedule, system } => {
                if schedule < self.schedules.len() && system < self.schedules[schedule].len() {
                    let ghost before = self.schedules();
                    self.schedules[schedule].system_ran(system, world);
                    proof {
                        let after = self.schedules();
                        assert(after =~= before.update(schedule as int, after[schedule as int]));
                        assert forall|k: int| 0 <= k < after.len() implies (
                        #[trigger] after[k]).valid_for(world.archetypes()) by {
                            if k == schedule {
                                assert forall|i: int| 0 <= i < after[k].systems().len() implies (
                                #[trigger] after[k].systems()[i]).query_view()
                                    == before[k].systems()[i].query_view() by {}
                            }
                        }
                        assert forall|p: (usize, usize)|
                            names_system(after, p) == names_system(before, p) by {}
                    }
                }
                let q = self.next_system(Some((schedule, system)));
                Self::phase_of(q)
            },
            Phase::Flushing => {
                self.flush_commands(world);
                Phase::Syncing
            },
            Phase::Syncing => {
                self.finish(world);
                Phase::Idle
            },
        }
    }

    /// The phase in which the system `next` is to run, or the commands are
    /// to be executed where no system is left.
    fn phase_of(next: Option<(usize, usize)>) -> (r: Phase)
        ensures
            r == running(next),
    {
        match next {
            Some(q) => Phase::Running { schedule: q.0, system: q.1 },
            None => Phase::Flushing,
        }
    }
}

} // verus!
