//! The configuration state machine: a deterministic reducer from committed
//! commands to versioned configuration entities.

use vstd::prelude::*;
use crate::command::{ConfigContent, RaftCommand, copy_opt_string};

verus! {

/// Largest number of entities a store can hold; ids and versions are `u64`.
pub const MAX_ENTITIES: u64 = 0xffff_ffff_ffff_fffe;

/// One configuration entry. Ids are assigned in order of creation, starting
/// at 1; a deleted entry stays as a tombstone so that ids are never reused.
#[derive(Debug)]
pub struct ConfigEntity {
    pub id: u64,
    pub name: String,
    pub namespace: String,
    pub department: String,
    pub application: String,
    pub environment: String,
    pub version: u64,
    pub content: ConfigContent,
    pub description: Option<String>,
    pub created_at: i64,
    pub updated_at: i64,
    pub created_by: String,
    pub updated_by: String,
    pub deleted: bool,
}

impl ConfigEntity {
    /// An exact copy.
    pub fn copy(&self) -> (r: ConfigEntity)
        ensures
            r == *self,
    {
        ConfigEntity {
            id: self.id,
            name: self.name.clone(),
            namespace: self.namespace.clone(),
            department: self.department.clone(),
            application: self.application.clone(),
            environment: self.environment.clone(),
            version: self.version,
            content: self.content.copy(),
            description: copy_opt_string(&self.description),
            created_at: self.created_at,
            updated_at: self.updated_at,
            created_by: self.created_by.clone(),
            updated_by: self.updated_by.clone(),
            deleted: self.deleted,
        }
    }
}

/// Why applying a command left the store unchanged.
#[derive(Debug, Clone, Copy, PartialEq, Eq, Structural)]
pub enum ApplyError {
    /// An active entry with the same name and scope exists.
    AlreadyExists,
    /// The id names no entry, or a deleted one.
    NotFound,
    /// No id or version number is left.
    Exhausted,
}

/// Whether entity `e` is active and has the given name and scope.
pub open spec fn same_scope(
    e: ConfigEntity,
    name: Seq<char>,
    namespace: Seq<char>,
    department: Seq<char>,
    application: Seq<char>,
    environment: Seq<char>,
) -> bool {
    &&& !e.deleted
    &&& e.name@ == name
    &&& e.namespace@ == namespace
    &&& e.department@ == department
    &&& e.application@ == application
    &&& e.environment@ == environment
}

/// Whether id `id` names an active entity of `s`.
pub open spec fn is_active(s: Seq<ConfigEntity>, id: u64) -> bool {
    1 <= id <= s.len() && !s[id - 1].deleted
}

/// The outcome of applying `cmd` to the entities `s`: the new entities and
/// the entity as it stands after the mutation, or the reason for refusal.
pub open spec fn apply_spec(s: Seq<ConfigEntity>, cmd: RaftCommand) -> (Seq<ConfigEntity>, Result<ConfigEntity, ApplyError>) {
    match cmd {
        RaftCommand::CreateConfig {
            name,
            namespace,
            department,
            application,
            environment,
            description,
            content,
            created_by,
            timestamp,
        } => {
            if exists|i: int|
                0 <= i < s.len() && #[trigger] same_scope(s[i], name@, namespace@, department@, application@, environment@) {
                (s, Err(ApplyError::AlreadyExists))
            } else if s.len() >= MAX_ENTITIES {
                (s, Err(ApplyError::Exhausted))
            } else {
                let e = ConfigEntity {
                    id: (s.len() + 1) as u64,
                    name,
                    namespace,
                    department,
                    application,
                    environment,
                    version: 1,
                    content,
                    description,
                    created_at: timestamp,
                    updated_at: timestamp,
                    created_by,
                    updated_by: created_by,
                    deleted: false,
                };
                (s.push(e), Ok(e))
            }
        },
        RaftCommand::UpdateConfig { id, description, content, updated_by, timestamp } => {
            if !is_active(s, id) {
                (s, Err(ApplyError::NotFound))
            } else if s[id - 1].version == u64::MAX {
                (s, Err(ApplyError::Exhausted))
            } else {
                let old = s[id - 1];
                let e = ConfigEntity {
                    version: (old.version + 1) as u64,
                    content,
                    description,
                    updated_at: timestamp,
                    updated_by,
                    ..old
                };
                (s.update(id - 1, e), Ok(e))
            }
        },
        RaftCommand::DeleteConfig { id } => {
            if !is_active(s, id) {
                (s, Err(ApplyError::NotFound))
            } else if s[id - 1].version == u64::MAX {
                (s, Err(ApplyError::Exhausted))
            } else {
                let old = s[id - 1];
                let e = ConfigEntity { version: (old.version + 1) as u64, deleted: true, ..old };
                (s.update(id - 1, e), Ok(e))
            }
        },
    }
}

/// The entities reached by applying `cmds`, in order, to `s`.
pub open spec fn apply_all(s: Seq<ConfigEntity>, cmds: Seq<RaftCommand>) -> Seq<ConfigEntity>
    decreases cmds.len(),
{
    if cmds.len() == 0 {
        s
    } else {
        apply_spec(apply_all(s, cmds.drop_last()), cmds.last()).0
    }
}

/// Entities are numbered by position: entity `k` has id `k + 1`.
pub open spec fn ids_in_order(s: Seq<ConfigEntity>) -> bool {
    forall|k: int| 0 <= k < s.len() ==> (#[trigger] s[k]).id == k + 1
}

/// The configuration state machine.
#[derive(Debug)]
pub struct ConfigStore {
    entities: Vec<ConfigEntity>,
}

impl View for ConfigStore {
    type V = Seq<ConfigEntity>;

    closed spec fn view(&self) -> Seq<ConfigEntity> {
        self.entities@
    }
}

impl ConfigStore {
    /// Well-formed: ids follow positions.
    pub open spec fn wf(&self) -> bool {
        ids_in_order(self@)
    }

    /// An empty store.
    pub fn new() -> (r: ConfigStore)
        ensures
            r.wf(),
            r@ == Seq::<ConfigEntity>::empty(),
    {
        ConfigStore { entities: Vec::new() }
    }

    /// A store holding exactly `entities`, which must be numbered by position.
    pub fn from_entities(entities: Vec<ConfigEntity>) -> (r: ConfigStore)
        requires
            ids_in_order(entities@),
        ensures
            r.wf(),
            r@ == entities@,
    {
        ConfigStore { entities }
    }

    /// A store holding exactly `entities` read back from durable storage,
    /// where they are numbered by position; none otherwise.
    pub fn restore(entities: Vec<ConfigEntity>) -> (r: Option<ConfigStore>)
        ensures
            r is Some <==> ids_in_order(entities@),
            r is Some ==> r->0.wf() && r->0@ == entities@,
    {
        let mut k: usize = 0;
        while k < entities.len()
            invariant
                0 <= k <= entities@.len(),
                forall|j: int| 0 <= j < k ==> (#[trigger] entities@[j]).id == j + 1,
            decreases entities@.len() - k,
        {
            if entities[k].id != k as u64 + 1 {
                return None;
            }
            k = k + 1;
        }
        Some(ConfigStore { entities })
    }

    /// A copy of every entity, tombstones included.
    pub fn entities(&self) -> (r: Vec<ConfigEntity>)
        ensures
            r@ == self@,
    {
        let mut out: Vec<ConfigEntity> = Vec::new();
        let mut i: usize = 0;
        while i < self.entities.len()
            invariant
                0 <= i <= self.entities@.len(),
                out@ == self.entities@.subrange(0, i as int),
            decreases self.entities@.len() - i,
        {
            out.push(self.entities[i].copy());
            i = i + 1;
            assert(out@ =~= self.entities@.subrange(0, i as int));
        }
        assert(out@ =~= self.entities@);
        out
    }

    /// An independent copy of the store.
    pub fn copy(&self) -> (r: ConfigStore)
        requires
            self.wf(),
        ensures
            r.wf(),
            r@ == self@,
    {
        ConfigStore { entities: self.entities() }
    }

    /// Whether some active entity has the given name and scope.
    fn find_scope(
        &self,
        name: &String,
        namespace: &String,
        department: &String,
        application: &String,
        environment: &String,
    ) -> (r: bool)
        ensures
            r == exists|i: int|
                0 <= i < self@.len() && #[trigger] same_scope(self@[i], name@, namespace@, department@, application@, environment@),
    {
        let mut i: usize = 0;
        while i < self.entities.len()
            invariant
                0 <= i <= self.entities@.len(),
                forall|j: int|
                    0 <= j < i ==> !#[trigger] same_scope(self.entities@[j], name@, namespace@, department@, application@, environment@),
            decreases self.entities@.len() - i,
        {
            let e = &self.entities[i];
            if !e.deleted && e.name == *name && e.namespace == *namespace && e.department == *department
                && e.application == *application && e.environment == *environment {
                assert(same_scope(self@[i as int], name@, namespace@, department@, application@, environment@));
                return true;
            }
            i = i + 1;
        }
        false
    }

    /// Applies one committed command. A refused command is reported in the
    /// result and leaves the store as it was.
    pub fn apply(&mut self, cmd: &RaftCommand) -> (r: Result<ConfigEntity, ApplyError>)
        requires
            old(self).wf(),
        ensures
            final(self).wf(),
            (final(self)@, r) == apply_spec(old(self)@, *cmd),
    {
        match cmd {
            RaftCommand::CreateConfig {
                name,
                namespace,
                department,
                application,
                environment,
                description,
                content,
                created_by,
                timestamp,
            } => {
                if self.find_scope(name, namespace, department, application, environment) {
                    return Err(ApplyError::AlreadyExists);
                }
                if self.entities.len() as u64 >= MAX_ENTITIES {
                    return Err(ApplyError::Exhausted);
                }
                let e = ConfigEntity {
                    id: self.entities.len() as u64 + 1,
                    name: name.clone(),
                    namespace: namespace.clone(),
                    department: department.clone(),
                    application: application.clone(),
                    environment: environment.clone(),
                    version: 1,
                    content: content.copy(),
                    description: copy_opt_string(description),
                    created_at: *timestamp,
                    updated_at: *timestamp,
                    created_by: created_by.clone(),
                    updated_by: created_by.clone(),
                    deleted: false,
                };
                let out = e.copy();
                self.entities.push(e);
                Ok(out)
            },
            RaftCommand::UpdateConfig { id, description, content, updated_by, timestamp } => {
                let id = *id;
                if id == 0 || id > self.entities.len() as u64 || self.entities[(id - 1) as usize].deleted {
                    return Err(ApplyError::NotFound);
                }
                let k = (id - 1) as usize;
                if self.entities[k].version == u64::MAX {
                    return Err(ApplyError::Exhausted);
                }
                let old = &self.entities[k];
                let e = ConfigEntity {
                    id: old.id,
                    name: old.name.clone(),
                    namespace: old.namespace.clone(),
                    department: old.department.clone(),
                    application: old.application.clone(),
                    environment: old.environment.clone(),
                    version: old.version + 1,
                    content: content.copy(),
                    description: copy_opt_string(description),
                    created_at: old.created_at,
                    updated_at: *timestamp,
                    created_by: old.created_by.clone(),
                    updated_by: updated_by.clone(),
                    deleted: false,
                };
                let out = e.copy();
                self.entities.set(k, e);
                Ok(out)
            },
            RaftCommand::DeleteConfig { id } => {
                let id = *id;
                if id == 0 || id > self.entities.len() as u64 || self.entities[(id - 1) as usize].deleted {
                    return Err(ApplyError::NotFound);
                }
                let k = (id - 1) as usize;
                if self.entities[k].version == u64::MAX {
                    return Err(ApplyError::Exhausted);
                }
                let mut e = self.entities[k].copy();
                e.version = e.version + 1;
                e.deleted = true;
                let out = e.copy();
                self.entities.set(k, e);
                Ok(out)
            },
        }
    }
}


/// Filter for listing configurations; `None` matches any value.
#[derive(Debug)]
pub struct ConfigFilter {
    pub namespace: Option<String>,
    pub department: Option<String>,
    pub application: Option<String>,
    pub environment: Option<String>,
}

/// Whether an optional wanted value admits `v`.
pub open spec fn admits(wanted: Option<String>, v: String) -> bool {
    match wanted {
        None => true,
        Some(w) => w@ == v@,
    }
}

/// Whether `e` is active and matches every field that `f` fixes.
pub open spec fn listed(e: ConfigEntity, f: ConfigFilter) -> bool {
    &&& !e.deleted
    &&& admits(f.namespace, e.namespace)
    &&& admits(f.department, e.department)
    &&& admits(f.application, e.application)
    &&& admits(f.environment, e.environment)
}

/// The entities of `s` that `f` lists, in id order.
pub open spec fn matching(s: Seq<ConfigEntity>, f: ConfigFilter) -> Seq<ConfigEntity>
    decreases s.len(),
{
    if s.len() == 0 {
        Seq::empty()
    } else {
        let m = matching(s.drop_last(), f);
        if listed(s.last(), f) {
            m.push(s.last())
        } else {
            m
        }
    }
}

/// Page `number` (counted from 1) of `page_size` items of `m`; empty when
/// either count is not positive or the page lies past the end.
pub open spec fn page_of(m: Seq<ConfigEntity>, page_size: i32, number: i32) -> Seq<ConfigEntity> {
    if page_size <= 0 || number <= 0 {
        Seq::empty()
    } else {
        let start = (number - 1) * page_size;
        if start >= m.len() {
            Seq::empty()
        } else if start + page_size >= m.len() {
            m.subrange(start, m.len() as int)
        } else {
            m.subrange(start, start + page_size)
        }
    }
}

/// Whether an optional wanted value admits `v`, computed.
fn admits_exec(wanted: &Option<String>, v: &String) -> (r: bool)
    ensures
        r == admits(*wanted, *v),
{
    match wanted {
        None => true,
        Some(w) => *w == *v,
    }
}

impl ConfigStore {
    /// The active entity with id `id`, if any.
    pub fn get(&self, id: u64) -> (r: Option<ConfigEntity>)
        ensures
            r == (if is_active(self@, id) { Some(self@[id - 1]) } else { None::<ConfigEntity> }),
    {
        if id == 0 || id > self.entities.len() as u64 || self.entities[(id - 1) as usize].deleted {
            None
        } else {
            Some(self.entities[(id - 1) as usize].copy())
        }
    }

    /// The active entities that `filter` admits, in id order.
    pub fn matching(&self, filter: &ConfigFilter) -> (r: Vec<ConfigEntity>)
        ensures
            r@ == matching(self@, *filter),
    {
        let mut out: Vec<ConfigEntity> = Vec::new();
        let mut i: usize = 0;
        while i < self.entities.len()
            invariant
                0 <= i <= self.entities@.len(),
                out@ == matching(self.entities@.subrange(0, i as int), *filter),
            decreases self.entities@.len() - i,
        {
            let e = &self.entities[i];
            assert(self.entities@.subrange(0, i + 1).drop_last() =~= self.entities@.subrange(0, i as int));
            if !e.deleted && admits_exec(&filter.namespace, &e.namespace) && admits_exec(&filter.department, &e.department)
                && admits_exec(&filter.application, &e.application) && admits_exec(&filter.environment, &e.environment) {
                out.push(e.copy());
            }
            i = i + 1;
        }
        assert(self.entities@.subrange(0, i as int) =~= self.entities@);
        out
    }

    /// One page of the listed entities, and how many are listed in all.
    pub fn list(&self, filter: &ConfigFilter, page_size: i32, page_number: i32) -> (r: (Vec<ConfigEntity>, usize))
        ensures
            r.0@ == page_of(matching(self@, *filter), page_size, page_number),
            r.1 == matching(self@, *filter).len(),
    {
        let mut all = self.matching(filter);
        let total = all.len();
        if page_size <= 0 || page_number <= 0 {
            return (Vec::new(), total);
        }
        let a: u64 = page_number as u64 - 1;
        let b: u64 = page_size as u64;
        assert(a * b <= 0x7fff_ffff * 0x7fff_ffff) by (nonlinear_arith)
            requires
                a <= 0x7fff_ffff,
                b <= 0x7fff_ffff,
        ;
        let start: u64 = a * b;
        if start >= total as u64 {
            return (Vec::new(), total);
        }
        let mut rest = all.split_off(start as usize);
        if page_size as u64 >= total as u64 - start {
            (rest, total)
        } else {
            let _tail = rest.split_off(page_size as usize);
            (rest, total)
        }
    }
}

/// Applying commands in two runs gives what applying them in one run
/// gives: the state after `a` is a sound starting point for `b`.
pub proof fn lemma_apply_all_concat(s: Seq<ConfigEntity>, a: Seq<RaftCommand>, b: Seq<RaftCommand>)
    ensures
        apply_all(s, a + b) == apply_all(apply_all(s, a), b),
    decreases b.len(),
{
    if b.len() == 0 {
        assert(a + b =~= a);
    } else {
        lemma_apply_all_concat(s, a, b.drop_last());
        assert((a + b).drop_last() =~= a + b.drop_last());
        assert((a + b).last() == b.last());
    }
}

} // verus!
