//! Deferred commands: structural changes that systems queue while they
//! iterate, kept as packed byte records and applied in order afterwards.

use vstd::prelude::*;
use vstd::bytes::{
    lemma_auto_spec_u32_to_from_le_bytes, lemma_auto_spec_u64_to_from_le_bytes,
    spec_u32_from_le_bytes, spec_u32_to_le_bytes, spec_u64_from_le_bytes, spec_u64_to_le_bytes,
    u32_from_le_bytes, u32_to_le_bytes, u64_from_le_bytes, u64_to_le_bytes,
};
use vstd::slice::slice_subrange;
use crate::component::ComponentID;
use crate::entity::Entity;
use crate::world::World;

verus! {

/// The kinds of command.
#[derive(Clone, Copy, Debug, PartialEq, Eq, Structural)]
pub enum CommandKind {
    AddComponent,
    RemoveComponent,
    AddEntity,
    RemoveEntity,
    FlagModified,
}

/// What is kept beside the bytes of a queued command: the number of its
/// bytes and its kind, which says how to read and execute it.
#[derive(Clone, Copy, Debug, PartialEq, Eq, Structural)]
pub struct CommandMetadata {
    pub size: usize,
    pub kind: CommandKind,
}

impl CommandMetadata {
    /// The metadata of a record of `size` bytes for a command of kind `kind`.
    pub fn new(size: usize, kind: CommandKind) -> (r: Self)
        ensures
            r == (CommandMetadata { size, kind }),
    {
        Self { size, kind }
    }
}

/// The mathematical content of a command.
pub enum CommandView {
    AddComponent { entity: Entity, comp_id: ComponentID, component: Seq<u8> },
    RemoveComponent { entity: Entity, comp_id: ComponentID },
    AddEntity,
    RemoveEntity { entity: Entity },
    FlagModified { entity: Entity, comp_id: ComponentID },
}

/// The first four bytes of a record: the entity.
pub open spec fn record_entity(bytes: Seq<u8>) -> Entity {
    spec_u32_from_le_bytes(bytes.subrange(0, 4))
}

/// The eight bytes after the entity: the component id.
pub open spec fn record_comp_id(bytes: Seq<u8>) -> ComponentID {
    spec_u64_from_le_bytes(bytes.subrange(4, 12)) as usize
}

/// Whether `size` bytes can be the record of a command of kind `kind`.
pub open spec fn size_fits(kind: CommandKind, size: int) -> bool {
    match kind {
        CommandKind::AddComponent => size >= 12,
        CommandKind::RemoveComponent => size == 12,
        CommandKind::AddEntity => size == 0,
        CommandKind::RemoveEntity => size == 4,
        CommandKind::FlagModified => size == 12,
    }
}

/// The command that the record `bytes` of kind `kind` stands for.
pub open spec fn decode(kind: CommandKind, bytes: Seq<u8>) -> CommandView {
    match kind {
        CommandKind::AddComponent => CommandView::AddComponent {
            entity: record_entity(bytes),
            comp_id: record_comp_id(bytes),
            component: bytes.subrange(12, bytes.len() as int),
        },
        CommandKind::RemoveComponent => CommandView::RemoveComponent {
            entity: record_entity(bytes),
            comp_id: record_comp_id(bytes),
        },
        CommandKind::AddEntity => CommandView::AddEntity,
        CommandKind::RemoveEntity => CommandView::RemoveEntity { entity: record_entity(bytes) },
        CommandKind::FlagModified => CommandView::FlagModified {
            entity: record_entity(bytes),
            comp_id: record_comp_id(bytes),
        },
    }
}

/// The bytes of the record of an entity and a component id.
pub open spec fn encode_header(entity: Entity, comp_id: ComponentID) -> Seq<u8> {
    spec_u32_to_le_bytes(entity) + spec_u64_to_le_bytes(comp_id as u64)
}

/// A record that starts with the header of `entity` and `comp_id` reads
/// back as that entity and that component id.
pub proof fn lemma_header_round_trip(entity: Entity, comp_id: ComponentID, rest: Seq<u8>)
    ensures
        encode_header(entity, comp_id).len() == 12,
        record_entity(encode_header(entity, comp_id) + rest) == entity,
        record_comp_id(encode_header(entity, comp_id) + rest) == comp_id,
        (encode_header(entity, comp_id) + rest).subrange(
            12,
            (encode_header(entity, comp_id) + rest).len() as int,
        ) == rest,
        record_entity(spec_u32_to_le_bytes(entity)) == entity,
{
    lemma_auto_spec_u32_to_from_le_bytes();
    lemma_auto_spec_u64_to_from_le_bytes();
    let e = spec_u32_to_le_bytes(entity);
    let c = spec_u64_to_le_bytes(comp_id as u64);
    let all = e + c + rest;
    assert(e.len() == 4);
    assert(c.len() == 8);
    assert(all.subrange(0, 4) =~= e);
    assert(all.subrange(4, 12) =~= c);
    assert(all.subrange(12, all.len() as int) =~= rest);
    assert(e.subrange(0, 4) =~= e);
    assert((comp_id as u64) as usize == comp_id);
}

/// Where record `i` starts: the sizes of the records before it, summed.
pub open spec fn record_start(meta: Seq<CommandMetadata>, i: int) -> int
    decreases i,
{
    if i <= 0 {
        0
    } else {
        record_start(meta, i - 1) + meta[i - 1].size
    }
}

/// The bytes of record `i`.
pub open spec fn record_bytes(meta: Seq<CommandMetadata>, bytes: Seq<u8>, i: int) -> Seq<u8> {
    bytes.subrange(record_start(meta, i), record_start(meta, i) + meta[i].size)
}

proof fn lemma_record_start_push(meta: Seq<CommandMetadata>, m: CommandMetadata, i: int)
    requires
        0 <= i <= meta.len(),
    ensures
        record_start(meta.push(m), i) == record_start(meta, i),
        0 <= record_start(meta, i),
    decreases i,
{
    if i > 0 {
        lemma_record_start_push(meta, m, i - 1);
        assert(meta.push(m)[i - 1] == meta[i - 1]);
    }
}

proof fn lemma_record_start_monotone(meta: Seq<CommandMetadata>, i: int, j: int)
    requires
        0 <= i <= j <= meta.len(),
    ensures
        0 <= record_start(meta, i) <= record_start(meta, j),
    decreases j,
{
    if i < j {
        lemma_record_start_monotone(meta, i, j - 1);
    } else {
        lemma_record_start_push(meta, CommandMetadata { size: 0, kind: CommandKind::AddEntity }, i);
    }
}

/// The command to give an entity a component.
pub struct AddComponentCommand {
    entity: Entity,
    comp_id: ComponentID,
    component: Vec<u8>,
}

impl View for AddComponentCommand {
    type V = CommandView;

    closed spec fn view(&self) -> CommandView {
        CommandView::AddComponent {
            entity: self.entity,
            comp_id: self.comp_id,
            component: self.component@,
        }
    }
}

impl AddComponentCommand {
    /// The command to give `entity` the component `comp_id` with the value
    /// `component`.
    pub fn new(entity: Entity, comp_id: ComponentID, component: Vec<u8>) -> (r: Self)
        ensures
            r@ == (CommandView::AddComponent { entity, comp_id, component: component@ }),
    {
        Self { entity, comp_id, component }
    }

    /// Gives the entity the component, where the component type is
    /// registered and the value has its size; else nothing changes.
    pub fn execute(self, world: &mut World)
        requires
            old(world).wf(),
        ensures
            effect(*old(world), self@, *final(world)),
            final(world).wf(),
    {
        if self.comp_id < world.component_count() {
            let size = world.component_manager().get_metadata(self.comp_id).size;
            if self.component.len() == size {
                world.add_component(self.entity, self.comp_id, &self.component);
            }
        }
    }
}

/// The command to take a component from an entity.
pub struct RemoveComponentCommand {
    entity: Entity,
    comp_id: ComponentID,
}

impl View for RemoveComponentCommand {
    type V = CommandView;

    closed spec fn view(&self) -> CommandView {
        CommandView::RemoveComponent { entity: self.entity, comp_id: self.comp_id }
    }
}

impl RemoveComponentCommand {
    /// The command to take the component `comp_id` from `entity`.
    pub fn new(entity: Entity, comp_id: ComponentID) -> (r: Self)
        ensures
            r@ == (CommandView::RemoveComponent { entity, comp_id }),
    {
        Self { entity, comp_id }
    }

    /// Takes the component from the entity.
    pub fn execute(self, world: &mut World)
        requires
            old(world).wf(),
        ensures
            effect(*old(world), self@, *final(world)),
            final(world).wf(),
    {
        world.remove_component(self.entity, self.comp_id);
    }
}

/// The command to create an entity.
pub struct AddEntityCommand {}

impl View for AddEntityCommand {
    type V = CommandView;

    closed spec fn view(&self) -> CommandView {
        CommandView::AddEntity
    }
}

impl AddEntityCommand {
    /// The command to create an entity.
    pub fn new() -> (r: Self)
        ensures
            r@ == CommandView::AddEntity,
    {
        Self {  }
    }

    /// Creates an entity, if the directory is not full.
    pub fn execute(self, world: &mut World)
        requires
            old(world).wf(),
        ensures
            effect(*old(world), self@, *final(world)),
            final(world).wf(),
    {
        let r = world.create_entity();
        assert(World::created(*old(world), *world, r));
    }
}

/// The command to delete an entity.
pub struct RemoveEntityCommand {
    entity: Entity,
}

impl View for RemoveEntityCommand {
    type V = CommandView;

    closed spec fn view(&self) -> CommandView {
        CommandView::RemoveEntity { entity: self.entity }
    }
}

impl RemoveEntityCommand {
    /// The command to delete `entity`.
    pub fn new(entity: Entity) -> (r: Self)
        ensures
            r@ == (CommandView::RemoveEntity { entity }),
    {
        Self { entity }
    }

    /// Deletes the entity.
    pub fn execute(self, world: &mut World)
        requires
            old(world).wf(),
        ensures
            effect(*old(world), self@, *final(world)),
            final(world).wf(),
    {
        world.delete_entity(self.entity);
    }
}

/// The command to flag a component of an entity as modified.
pub struct FlagModifiedCommand {
    entity: Entity,
    comp_id: ComponentID,
}

impl View for FlagModifiedCommand {
    type V = CommandView;

    closed spec fn view(&self) -> CommandView {
        CommandView::FlagModified { entity: self.entity, comp_id: self.comp_id }
    }
}

impl FlagModifiedCommand {
    /// The command to flag the component `comp_id` of `entity` as modified.
    pub fn new(entity: Entity, comp_id: ComponentID) -> (r: Self)
        ensures
            r@ == (CommandView::FlagModified { entity, comp_id }),
    {
        Self { entity, comp_id }
    }

    /// Flags the component of the entity as written at the current tick.
    pub fn execute(self, world: &mut World)
        requires
            old(world).wf(),
        ensures
            effect(*old(world), self@, *final(world)),
            final(world).wf(),
    {
        world.flag_modified(self.entity, self.comp_id);
    }
}

/// `post` is `pre` after the command `cmd` was executed.
pub open spec fn effect(pre: World, cmd: CommandView, post: World) -> bool {
    match cmd {
        CommandView::AddComponent { entity, comp_id, component } => if comp_id < pre.registry().len()
            && component.len() == pre.registry()[comp_id as int].size {
            World::added(pre, post, entity, comp_id, component)
        } else {
            post == pre
        },
        CommandView::RemoveComponent { entity, comp_id } => World::removed(pre, post, entity, comp_id),
        CommandView::AddEntity => exists|r: Option<Entity>| World::created(pre, post, r),
        CommandView::RemoveEntity { entity } => World::deleted(pre, post, entity),
        CommandView::FlagModified { entity, comp_id } => World::flagged(pre, post, entity, comp_id),
    }
}

/// `post` is `pre` after the commands `cmds` were executed in order.
pub open spec fn applied(pre: World, cmds: Seq<CommandView>, post: World) -> bool
    decreases cmds.len(),
{
    if cmds.len() == 0 {
        post == pre
    } else {
        exists|mid: World|
            #![trigger effect(mid, cmds.last(), post)]
            applied(pre, cmds.drop_last(), mid) && effect(mid, cmds.last(), post)
    }
}

/// Executing one more command extends what was applied.
pub proof fn lemma_applied_push(
    pre: World,
    cmds: Seq<CommandView>,
    mid: World,
    cmd: CommandView,
    post: World,
)
    requires
        applied(pre, cmds, mid),
        effect(mid, cmd, post),
    ensures
        applied(pre, cmds.push(cmd), post),
{
    let all = cmds.push(cmd);
    assert(all.drop_last() =~= cmds);
    assert(all.last() == cmd);
    assert(applied(pre, all.drop_last(), mid) && effect(mid, all.last(), post));
}

/// Commands in the order in which they were queued: their records packed
/// in one byte buffer, and beside it the size and kind of each.
pub struct CommandQueue {
    commands: Vec<u8>,
    metadata: Vec<CommandMetadata>,
}

impl View for CommandQueue {
    type V = Seq<CommandView>;

    closed spec fn view(&self) -> Seq<CommandView> {
        Seq::new(
            self.metadata.len() as nat,
            |i: int| decode(self.metadata[i].kind, record_bytes(self.metadata@, self.commands@, i)),
        )
    }
}

impl CommandQueue {
    /// The representation invariant: the records fill the buffer, and each
    /// has a size that fits its kind.
    pub closed spec fn wf(&self) -> bool {
        &&& record_start(self.metadata@, self.metadata.len() as int) == self.commands.len()
        &&& forall|i: int|
            0 <= i < self.metadata.len() ==> size_fits(
                (#[trigger] self.metadata[i]).kind,
                self.metadata[i].size as int,
            )
    }

    /// An empty queue.
    pub fn new() -> (r: Self)
        ensures
            r.wf(),
            r@ == Seq::<CommandView>::empty(),
    {
        let r = Self { commands: Vec::new(), metadata: Vec::new() };
        assert(r@ =~= Seq::<CommandView>::empty());
        r
    }

    /// The number of queued commands.
    pub fn len(&self) -> (n: usize)
        ensures
            n == self@.len(),
    {
        self.metadata.len()
    }

    /// Appends a record of kind `kind`.
    fn push(&mut self, kind: CommandKind, record: &Vec<u8>)
        requires
            old(self).wf(),
            size_fits(kind, record.len() as int),
        ensures
            final(self).wf(),
            final(self)@ == old(self)@.push(decode(kind, record@)),
    {
        let ghost meta0 = self.metadata@;
        let ghost bytes0 = self.commands@;
        let metadata = CommandMetadata::new(record.len(), kind);
        let mut j: usize = 0;
        while j < record.len()
            invariant
                j <= record.len(),
                self.metadata@ == meta0,
                self.commands@ == bytes0 + record@.subrange(0, j as int),
            decreases record.len() - j,
        {
            self.commands.push(record[j]);
            assert(self.commands@ =~= bytes0 + record@.subrange(0, j + 1));
            j = j + 1;
        }
        self.metadata.push(metadata);
        proof {
            assert(record@.subrange(0, record.len() as int) =~= record@);
            let meta1 = self.metadata@;
            let bytes1 = self.commands@;
            let n = meta0.len() as int;
            lemma_record_start_push(meta0, metadata, n);
            assert(meta1[n] == metadata);
            assert(meta1.drop_last() =~= meta0);
            assert forall|i: int| 0 <= i < meta1.len() implies size_fits(
                (#[trigger] meta1[i]).kind,
                meta1[i].size as int,
            ) by {
                if i < n {
                    assert(meta1[i] == meta0[i]);
                }
            }
            assert forall|i: int| 0 <= i < meta1.len() implies #[trigger] self@[i] == old(self)@.push(
                decode(kind, record@),
            )[i] by {
                lemma_record_start_push(meta0, metadata, i);
                if i < n {
                    assert(meta1[i] == meta0[i]);
                    lemma_record_start_monotone(meta0, i + 1, n);
                    assert(record_bytes(meta1, bytes1, i) =~= record_bytes(meta0, bytes0, i));
                } else {
                    assert(record_bytes(meta1, bytes1, i) =~= record@);
                }
            }
            assert(self@ =~= old(self)@.push(decode(kind, record@)));
        }
    }

    /// The record of a command on an entity and a component.
    fn header(entity: Entity, comp_id: ComponentID) -> (r: Vec<u8>)
        ensures
            r@ == encode_header(entity, comp_id),
            r.len() == 12,
    {
        let mut record = u32_to_le_bytes(entity);
        let id = u64_to_le_bytes(comp_id as u64);
        proof {
            lemma_auto_spec_u64_to_from_le_bytes();
        }
        let ghost head = record@;
        let mut j: usize = 0;
        while j < id.len()
            invariant
                j <= id.len(),
                record@ == head + id@.subrange(0, j as int),
            decreases id.len() - j,
        {
            record.push(id[j]);
            assert(record@ =~= head + id@.subrange(0, j + 1));
            j = j + 1;
        }
        assert(id@.subrange(0, id.len() as int) =~= id@);
        record
    }

    /// Queues: flag the component `comp_id` of `entity` as modified.
    pub fn flag_modified(&mut self, entity: Entity, comp_id: ComponentID)
        requires
            old(self).wf(),
        ensures
            final(self).wf(),
            final(self)@ == old(self)@.push(CommandView::FlagModified { entity, comp_id }),
    {
        let record = Self::header(entity, comp_id);
        proof {
            lemma_header_round_trip(entity, comp_id, Seq::empty());
            assert(record@ + Seq::<u8>::empty() =~= record@);
        }
        self.push(CommandKind::FlagModified, &record);
    }

    /// Queues: give `entity` the component `comp_id` with the value
    /// `component`.
    pub fn add_component(&mut self, entity: Entity, comp_id: ComponentID, component: &Vec<u8>)
        requires
            old(self).wf(),
        ensures
            final(self).wf(),
            final(self)@ == old(self)@.push(
                CommandView::AddComponent { entity, comp_id, component: component@ },
            ),
    {
        let mut record = Self::header(entity, comp_id);
        let ghost head = record@;
        let mut j: usize = 0;
        while j < component.len()
            invariant
                j <= component.len(),
                record@ == head + component@.subrange(0, j as int),
            decreases component.len() - j,
        {
            record.push(component[j]);
            assert(record@ =~= head + component@.subrange(0, j + 1));
            j = j + 1;
        }
        proof {
            assert(component@.subrange(0, component.len() as int) =~= component@);
            lemma_header_round_trip(entity, comp_id, component@);
        }
        self.push(CommandKind::AddComponent, &record);
    }

    /// Queues: take the component `comp_id` from `entity`.
    pub fn remove_component(&mut self, entity: Entity, comp_id: ComponentID)
        requires
            old(self).wf(),
        ensures
            final(self).wf(),
            final(self)@ == old(self)@.push(CommandView::RemoveComponent { entity, comp_id }),
    {
        let record = Self::header(entity, comp_id);
        proof {
            lemma_header_round_trip(entity, comp_id, Seq::empty());
            assert(record@ + Seq::<u8>::empty() =~= record@);
        }
        self.push(CommandKind::RemoveComponent, &record);
    }

    /// Queues: create an entity.
    pub fn add_entity(&mut self)
        requires
            old(self).wf(),
        ensures
            final(self).wf(),
            final(self)@ == old(self)@.push(CommandView::AddEntity),
    {
        let record: Vec<u8> = Vec::new();
        self.push(CommandKind::AddEntity, &record);
    }

    /// Queues: delete `entity`.
    pub fn remove_entity(&mut self, entity: Entity)
        requires
            old(self).wf(),
        ensures
            final(self).wf(),
            final(self)@ == old(self)@.push(CommandView::RemoveEntity { entity }),
    {
        let record = u32_to_le_bytes(entity);
        proof {
            lemma_header_round_trip(entity, 0, Seq::empty());
        }
        self.push(CommandKind::RemoveEntity, &record);
    }

    /// Reads the record in `bytes` as a command of kind `kind` and executes
    /// it on `world`.
    fn execute_record(kind: CommandKind, bytes: &[u8], world: &mut World)
        requires
            old(world).wf(),
            size_fits(kind, bytes@.len() as int),
        ensures
            effect(*old(world), decode(kind, bytes@), *final(world)),
            final(world).wf(),
    {
        match kind {
            CommandKind::AddEntity => {
                AddEntityCommand::new().execute(world);
            },
            CommandKind::RemoveEntity => {
                let entity = u32_from_le_bytes(slice_subrange(bytes, 0, 4));
                RemoveEntityCommand::new(entity).execute(world);
            },
            CommandKind::RemoveComponent => {
                let entity = u32_from_le_bytes(slice_subrange(bytes, 0, 4));
                let id = u64_from_le_bytes(slice_subrange(bytes, 4, 12));
                RemoveComponentCommand::new(entity, id as usize).execute(world);
            },
            CommandKind::FlagModified => {
                let entity = u32_from_le_bytes(slice_subrange(bytes, 0, 4));
                let id = u64_from_le_bytes(slice_subrange(bytes, 4, 12));
                FlagModifiedCommand::new(entity, id as usize).execute(world);
            },
            CommandKind::AddComponent => {
                let entity = u32_from_le_bytes(slice_subrange(bytes, 0, 4));
                let id = u64_from_le_bytes(slice_subrange(bytes, 4, 12));
                let value = slice_subrange(bytes, 12, bytes.len());
                let mut component: Vec<u8> = Vec::with_capacity(value.len());
                let mut j: usize = 0;
                while j < value.len()
                    invariant
                        j <= value.len(),
                        component@ == value@.subrange(0, j as int),
                    decreases value.len() - j,
                {
                    component.push(value[j]);
                    assert(component@ =~= value@.subrange(0, j + 1));
                    j = j + 1;
                }
                assert(value@.subrange(0, value.len() as int) =~= value@);
                AddComponentCommand::new(entity, id as usize, component).execute(world);
            },
        }
    }

    /// Executes the queued commands on `world`, in the order in which they
    /// were queued, and empties the queue.
    pub fn flush(&mut self, world: &mut World)
        requires
            old(self).wf(),
            old(world).wf(),
        ensures
            final(self).wf(),
            final(self)@ == Seq::<CommandView>::empty(),
            final(world).wf(),
            applied(*old(world), old(self)@, *final(world)),
    {
        let ghost cmds = self@;
        let ghost meta = self.metadata@;
        let n = self.metadata.len();
        let mut cursor: usize = 0;
        let mut i: usize = 0;
        while i < n
            invariant
                i <= n,
                n == meta.len(),
                self.metadata@ == meta,
                self.commands == old(self).commands,
                self@ == cmds,
                self.wf(),
                cursor == record_start(meta, i as int),
                world.wf(),
                applied(*old(world), cmds.take(i as int), *world),
            decreases n - i,
        {
            let metadata = self.metadata[i];
            proof {
                lemma_record_start_monotone(meta, i + 1, n as int);
            }
            let record = slice_subrange(self.commands.as_slice(), cursor, cursor + metadata.size);
            let ghost before = *world;
            Self::execute_record(metadata.kind, record, world);
            proof {
                assert(record@ == record_bytes(meta, self.commands@, i as int));
                assert(cmds[i as int] == decode(metadata.kind, record@));
                lemma_applied_push(*old(world), cmds.take(i as int), before, cmds[i as int], *world);
                assert(cmds.take(i + 1) =~= cmds.take(i as int).push(cmds[i as int]));
            }
            cursor = cursor + metadata.size;
            i = i + 1;
        }
        proof {
            assert(cmds.take(n as int) =~= cmds);
        }
        self.metadata.clear();
        self.commands.clear();
        assert(self@ =~= Seq::<CommandView>::empty());
    }
}

} // verus!
