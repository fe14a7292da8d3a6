use crate::enums::MemoryLayer;
use crate::outside::{new_record_id, now_millis};
use std::collections::HashMap;
use vstd::prelude::*;

verus! {

/// One stored memory. Timestamps are milliseconds since the Unix epoch; the
/// importance score is kept as the bit pattern of an IEEE-754 single.
pub struct MemoryRecord {
    pub id: u128,
    pub tenant_id: String,
    pub agent_id: String,
    pub content: String,
    pub layer: MemoryLayer,
    pub importance_bits: u32,
    pub tags: Vec<String>,
    pub metadata: HashMap<String, serde_json::Value>,
    pub created_at: i64,
    pub updated_at: i64,
    pub expires_at: Option<i64>,
    pub last_accessed_at: Option<i64>,
    pub access_count: i32,
}

/// The mathematical value of a [`MemoryRecord`].
pub struct RecordView {
    pub id: u128,
    pub tenant_id: Seq<char>,
    pub agent_id: Seq<char>,
    pub content: Seq<char>,
    pub layer: MemoryLayer,
    pub importance_bits: u32,
    pub tags: Seq<Seq<char>>,
    pub metadata: Map<String, serde_json::Value>,
    pub created_at: i64,
    pub updated_at: i64,
    pub expires_at: Option<i64>,
    pub last_accessed_at: Option<i64>,
    pub access_count: i32,
}

pub open spec fn strings_view(s: Seq<String>) -> Seq<Seq<char>> {
    s.map_values(|t: String| t@)
}

impl View for MemoryRecord {
    type V = RecordView;

    open spec fn view(&self) -> RecordView {
        RecordView {
            id: self.id,
            tenant_id: self.tenant_id@,
            agent_id: self.agent_id@,
            content: self.content@,
            layer: self.layer,
            importance_bits: self.importance_bits,
            tags: strings_view(self.tags@),
            metadata: self.metadata@,
            created_at: self.created_at,
            updated_at: self.updated_at,
            expires_at: self.expires_at,
            last_accessed_at: self.last_accessed_at,
            access_count: self.access_count,
        }
    }
}

pub(crate) fn copy_strings(v: &Vec<String>) -> (r: Vec<String>)
    ensures
        strings_view(r@) == strings_view(v@),
{
    let mut out: Vec<String> = Vec::new();
    let mut i: usize = 0;
    while i < v.len()
        invariant
            i <= v.len(),
            out@.len() == i,
            forall|j: int| 0 <= j < i ==> out@[j]@ == v@[j]@,
        decreases v.len() - i,
    {
        out.push(v[i].clone());
        i = i + 1;
    }
    assert(strings_view(out@) =~= strings_view(v@));
    out
}

impl MemoryRecord {
    /// A copy of this record that shares nothing with it.
    pub fn duplicate(&self) -> (r: MemoryRecord)
        ensures
            r@ == self@,
    {
        MemoryRecord {
            id: self.id,
            tenant_id: self.tenant_id.clone(),
            agent_id: self.agent_id.clone(),
            content: self.content.clone(),
            layer: self.layer,
            importance_bits: self.importance_bits,
            tags: copy_strings(&self.tags),
            metadata: self.metadata.clone(),
            created_at: self.created_at,
            updated_at: self.updated_at,
            expires_at: self.expires_at,
            last_accessed_at: self.last_accessed_at,
            access_count: self.access_count,
        }
    }
}

/// A partial update of a record: each field that is present replaces the
/// record's own. Identity, tenant and creation time cannot be updated.
pub struct MemoryUpdate {
    pub content: Option<String>,
    pub agent_id: Option<String>,
    pub layer: Option<MemoryLayer>,
    pub importance_bits: Option<u32>,
    pub tags: Option<Vec<String>>,
    pub metadata: Option<HashMap<String, serde_json::Value>>,
    pub expires_at: Option<Option<i64>>,
}

/// The mathematical value of a [`MemoryUpdate`].
pub struct UpdateView {
    pub content: Option<Seq<char>>,
    pub agent_id: Option<Seq<char>>,
    pub layer: Option<MemoryLayer>,
    pub importance_bits: Option<u32>,
    pub tags: Option<Seq<Seq<char>>>,
    pub metadata: Option<Map<String, serde_json::Value>>,
    pub expires_at: Option<Option<i64>>,
}

impl View for MemoryUpdate {
    type V = UpdateView;

    open spec fn view(&self) -> UpdateView {
        UpdateView {
            content: match self.content {
                Some(c) => Some(c@),
                None => None,
            },
            agent_id: match self.agent_id {
                Some(a) => Some(a@),
                None => None,
            },
            layer: self.layer,
            importance_bits: self.importance_bits,
            tags: match self.tags {
                Some(t) => Some(strings_view(t@)),
                None => None,
            },
            metadata: match self.metadata {
                Some(m) => Some(m@),
                None => None,
            },
            expires_at: self.expires_at,
        }
    }
}

impl MemoryUpdate {
    /// An update that changes nothing but the update time.
    pub fn none() -> (r: MemoryUpdate)
        ensures
            r@.content is None,
            r@.agent_id is None,
            r@.layer is None,
            r@.importance_bits is None,
            r@.tags is None,
            r@.metadata is None,
            r@.expires_at is None,
    {
        MemoryUpdate {
            content: None,
            agent_id: None,
            layer: None,
            importance_bits: None,
            tags: None,
            metadata: None,
            expires_at: None,
        }
    }
}

/// `r` with the fields present in `u` replaced and its update time set to `now`.
pub open spec fn apply_update(r: RecordView, u: UpdateView, now: i64) -> RecordView {
    RecordView {
        content: match u.content {
            Some(c) => c,
            None => r.content,
        },
        agent_id: match u.agent_id {
            Some(a) => a,
            None => r.agent_id,
        },
        layer: match u.layer {
            Some(l) => l,
            None => r.layer,
        },
        importance_bits: match u.importance_bits {
            Some(b) => b,
            None => r.importance_bits,
        },
        tags: match u.tags {
            Some(t) => t,
            None => r.tags,
        },
        metadata: match u.metadata {
            Some(m) => m,
            None => r.metadata,
        },
        expires_at: match u.expires_at {
            Some(e) => e,
            None => r.expires_at,
        },
        updated_at: now,
        ..r
    }
}

/// The record that a fresh store call creates.
pub open spec fn new_record(
    id: u128,
    now: i64,
    tenant_id: Seq<char>,
    agent_id: Seq<char>,
    content: Seq<char>,
    layer: MemoryLayer,
    importance_bits: u32,
    tags: Seq<Seq<char>>,
    metadata: Map<String, serde_json::Value>,
    expires_at: Option<i64>,
) -> RecordView {
    RecordView {
        id,
        tenant_id,
        agent_id,
        content,
        layer,
        importance_bits,
        tags,
        metadata,
        created_at: now,
        updated_at: now,
        expires_at,
        last_accessed_at: None,
        access_count: 0,
    }
}

/// No two records share an identifier.
pub open spec fn ids_unique(s: Seq<RecordView>) -> bool {
    forall|i: int, j: int| 0 <= i < s.len() && 0 <= j < s.len() && s[i].id == s[j].id ==> i == j
}

pub open spec fn id_used(s: Seq<RecordView>, id: u128) -> bool {
    exists|i: int| 0 <= i < s.len() && s[i].id == id
}

/// Position `i` holds the record `id` of tenant `tenant`.
pub open spec fn owned_at(s: Seq<RecordView>, i: int, id: u128, tenant: Seq<char>) -> bool {
    0 <= i < s.len() && s[i].id == id && s[i].tenant_id == tenant
}

/// Tenant `tenant` owns a record with identifier `id`.
pub open spec fn owns(s: Seq<RecordView>, id: u128, tenant: Seq<char>) -> bool {
    exists|i: int| owned_at(s, i, id, tenant)
}

/// The filter of `list` and `count`: the tenant always, agent and layer where given.
pub open spec fn record_matches(
    r: RecordView,
    tenant: Seq<char>,
    agent: Option<Seq<char>>,
    layer: Option<MemoryLayer>,
) -> bool {
    &&& r.tenant_id == tenant
    &&& match agent {
        Some(a) => r.agent_id == a,
        None => true,
    }
    &&& match layer {
        Some(l) => r.layer == l,
        None => true,
    }
}

/// The records of `s` that pass the filter, in the order of `s`.
pub open spec fn selected(
    s: Seq<RecordView>,
    tenant: Seq<char>,
    agent: Option<Seq<char>>,
    layer: Option<MemoryLayer>,
) -> Seq<RecordView>
    decreases s.len(),
{
    if s.len() == 0 {
        Seq::empty()
    } else {
        let rest = selected(s.drop_last(), tenant, agent, layer);
        if record_matches(s.last(), tenant, agent, layer) {
            rest.push(s.last())
        } else {
            rest
        }
    }
}

/// The window of `s` that skips `offset` items and then keeps at most `limit`.
pub open spec fn page<A>(s: Seq<A>, offset: int, limit: int) -> Seq<A> {
    let lo = if offset < s.len() { offset } else { s.len() as int };
    let hi = if offset + limit < s.len() { offset + limit } else { s.len() as int };
    s.subrange(lo, hi)
}

pub open spec fn records_view(s: Seq<MemoryRecord>) -> Seq<RecordView> {
    s.map_values(|m: MemoryRecord| m@)
}

/// Why a record could not be stored.
#[derive(Clone, Copy, Debug, PartialEq, Eq, Structural)]
pub enum StorageError {
    /// The identifier drawn for the new record is already in use.
    IdInUse,
}

/// The in-memory memory store. Records of all tenants share one sequence, each
/// tagged with its tenant; every operation filters by tenant first. Records keep
/// the order in which they were stored.
pub struct InMemoryStorage {
    memories: Vec<MemoryRecord>,
}

impl View for InMemoryStorage {
    type V = Seq<RecordView>;

    closed spec fn view(&self) -> Seq<RecordView> {
        records_view(self.memories@)
    }
}

impl InMemoryStorage {
    pub open spec fn wf(&self) -> bool {
        ids_unique(self@)
    }

    pub fn new() -> (r: InMemoryStorage)
        ensures
            r.wf(),
            r@ == Seq::<RecordView>::empty(),
    {
        let r = InMemoryStorage { memories: Vec::new() };
        assert(r@ =~= Seq::<RecordView>::empty());
        r
    }
}


impl InMemoryStorage {
    fn position(&self, id: u128, tenant: &String) -> (r: Option<usize>)
        ensures
            match r {
                Some(i) => owned_at(self@, i as int, id, tenant@),
                None => !owns(self@, id, tenant@),
            },
    {
        let mut i: usize = 0;
        while i < self.memories.len()
            invariant
                i <= self.memories.len(),
                self@.len() == self.memories@.len(),
                forall|j: int| 0 <= j < i ==> !owned_at(self@, j, id, tenant@),
            decreases self.memories.len() - i,
        {
            proof {
                assert(self@[i as int] == self.memories@[i as int]@);
            }
            if self.memories[i].id == id && self.memories[i].tenant_id == *tenant {
                return Some(i);
            }
            i = i + 1;
        }
        None
    }

    fn id_in_use(&self, id: u128) -> (r: bool)
        ensures
            r == id_used(self@, id),
    {
        let mut i: usize = 0;
        while i < self.memories.len()
            invariant
                i <= self.memories.len(),
                self@.len() == self.memories@.len(),
                forall|j: int| 0 <= j < i ==> self@[j].id != id,
            decreases self.memories.len() - i,
        {
            proof {
                assert(self@[i as int] == self.memories@[i as int]@);
            }
            if self.memories[i].id == id {
                return true;
            }
            i = i + 1;
        }
        false
    }

    /// Stores a new record under the identifier `id`, created and updated at `now`.
    /// Fails, changing nothing, when some record of any tenant already has that
    /// identifier, so that no write can replace another tenant's record.
    pub fn insert_memory(
        &mut self,
        id: u128,
        now: i64,
        tenant_id: &str,
        agent_id: &str,
        content: &str,
        layer: MemoryLayer,
        importance_bits: u32,
        tags: Vec<String>,
        metadata: HashMap<String, serde_json::Value>,
        expires_at: Option<i64>,
    ) -> (r: Result<u128, StorageError>)
        requires
            old(self).wf(),
        ensures
            final(self).wf(),
            r == (if id_used(old(self)@, id) {
                Err::<u128, StorageError>(StorageError::IdInUse)
            } else {
                Ok::<u128, StorageError>(id)
            }),
            r is Ok ==> final(self)@ == old(self)@.push(
                new_record(
                    id,
                    now,
                    tenant_id@,
                    agent_id@,
                    content@,
                    layer,
                    importance_bits,
                    strings_view(tags@),
                    metadata@,
                    expires_at,
                ),
            ),
            r is Err ==> final(self)@ == old(self)@,
    {
        if self.id_in_use(id) {
            return Err(StorageError::IdInUse);
        }
        let record = MemoryRecord {
            id,
            tenant_id: tenant_id.to_owned(),
            agent_id: agent_id.to_owned(),
            content: content.to_owned(),
            layer,
            importance_bits,
            tags,
            metadata,
            created_at: now,
            updated_at: now,
            expires_at,
            last_accessed_at: None,
            access_count: 0,
        };
        let ghost before = self@;
        self.memories.push(record);
        proof {
            assert(self@ =~= before.push(record@));
        }
        Ok(id)
    }

    /// The smallest identifier that no record uses. One exists among the first
    /// `len + 1` values, since the store holds only `len` records.
    fn unused_id(&self) -> (r: u128)
        ensures
            !id_used(self@, r),
    {
        let n = self.memories.len();
        let mut c: u128 = 0;
        while c <= n as u128
            invariant
                self@.len() == n,
                c <= n + 1,
                forall|d: u128| d < c ==> id_used(self@, d),
            decreases n + 1 - c,
        {
            if !self.id_in_use(c) {
                return c;
            }
            c = c + 1;
        }
        proof {
            let ids = self@.map_values(|m: RecordView| m.id);
            lemma_unused_below(ids, (n + 1) as nat);
            let d = choose|d: u128| d < n + 1 && !ids.contains(d);
            assert(id_used(self@, d));
            let i = choose|i: int| 0 <= i < self@.len() && self@[i].id == d;
            assert(ids[i] == d);
        }
        c
    }

    /// Stores a new record under a fresh identifier and the current time, and
    /// returns that identifier. The identifier is drawn at random; should it
    /// already be in use, the smallest unused one is taken instead, so the call
    /// always succeeds and never replaces a record.
    pub fn store_memory(
        &mut self,
        tenant_id: &str,
        agent_id: &str,
        content: &str,
        layer: MemoryLayer,
        importance_bits: u32,
        tags: Vec<String>,
        metadata: HashMap<String, serde_json::Value>,
        expires_at: Option<i64>,
    ) -> (id: u128)
        requires
            old(self).wf(),
        ensures
            final(self).wf(),
            !id_used(old(self)@, id),
            exists|now: i64|
                final(self)@ == old(self)@.push(
                    new_record(
                        id,
                        now,
                        tenant_id@,
                        agent_id@,
                        content@,
                        layer,
                        importance_bits,
                        strings_view(tags@),
                        metadata@,
                        expires_at,
                    ),
                ),
    {
        let drawn = new_record_id();
        let id = if self.id_in_use(drawn) {
            self.unused_id()
        } else {
            drawn
        };
        let now = now_millis();
        let r = self.insert_memory(
            id,
            now,
            tenant_id,
            agent_id,
            content,
            layer,
            importance_bits,
            tags,
            metadata,
            expires_at,
        );
        match r {
            Ok(_) => id,
            Err(_) => {
                proof {
                    assert(false);
                }
                id
            },
        }
    }

    /// The record `id` if tenant `tenant_id` owns it; absent otherwise, whether the
    /// identifier is unknown or belongs to another tenant.
    pub fn get_memory(&self, memory_id: u128, tenant_id: &str) -> (r: Option<MemoryRecord>)
        requires
            self.wf(),
        ensures
            r is Some <==> owns(self@, memory_id, tenant_id@),
            match r {
                Some(rec) => exists|i: int|
                    owned_at(self@, i, memory_id, tenant_id@) && rec@ == self@[i],
                None => true,
            },
    {
        let tenant = tenant_id.to_owned();
        match self.position(memory_id, &tenant) {
            Some(i) => {
                let rec = self.memories[i].duplicate();
                proof {
                    assert(self@[i as int] == self.memories@[i as int]@);
                }
                Some(rec)
            },
            None => None,
        }
    }

    /// Applies `updates` to record `id` of tenant `tenant_id` and sets its update
    /// time to `now`. Returns whether such a record existed; nothing changes otherwise.
    pub fn apply_memory_update(
        &mut self,
        memory_id: u128,
        tenant_id: &str,
        updates: MemoryUpdate,
        now: i64,
    ) -> (r: bool)
        requires
            old(self).wf(),
        ensures
            final(self).wf(),
            r == owns(old(self)@, memory_id, tenant_id@),
            r ==> exists|i: int|
                owned_at(old(self)@, i, memory_id, tenant_id@) && final(self)@ == old(self)@.update(
                    i,
                    apply_update(old(self)@[i], updates@, now),
                ),
            !r ==> final(self)@ == old(self)@,
    {
        let tenant = tenant_id.to_owned();
        match self.position(memory_id, &tenant) {
            Some(i) => {
                let ghost before = self@;
                let mut rec = self.memories[i].duplicate();
                proof {
                    assert(before[i as int] == self.memories@[i as int]@);
                }
                match updates.content {
                    Some(c) => {
                        rec.content = c;
                    },
                    None => {},
                }
                match updates.agent_id {
                    Some(a) => {
                        rec.agent_id = a;
                    },
                    None => {},
                }
                match updates.layer {
                    Some(l) => {
                        rec.layer = l;
                    },
                    None => {},
                }
                match updates.importance_bits {
                    Some(b) => {
                        rec.importance_bits = b;
                    },
                    None => {},
                }
                match updates.tags {
                    Some(t) => {
                        rec.tags = t;
                    },
                    None => {},
                }
                match updates.metadata {
                    Some(m) => {
                        rec.metadata = m;
                    },
                    None => {},
                }
                match updates.expires_at {
                    Some(e) => {
                        rec.expires_at = e;
                    },
                    None => {},
                }
                rec.updated_at = now;
                proof {
                    assert(rec@ == apply_update(before[i as int], updates@, now));
                }
                self.memories.set(i, rec);
                proof {
                    assert(self@ =~= before.update(i as int, rec@));
                    assert(forall|j: int| 0 <= j < self@.len() ==> self@[j].id == before[j].id);
                }
                true
            },
            None => false,
        }
    }

    /// Applies `updates` to record `id` of tenant `tenant_id`, stamped with the
    /// current time. Returns whether such a record existed; nothing changes otherwise.
    pub fn update_memory(&mut self, memory_id: u128, tenant_id: &str, updates: MemoryUpdate) -> (r:
        bool)
        requires
            old(self).wf(),
        ensures
            final(self).wf(),
            r == owns(old(self)@, memory_id, tenant_id@),
            r ==> exists|i: int, now: i64|
                owned_at(old(self)@, i, memory_id, tenant_id@) && final(self)@ == old(self)@.update(
                    i,
                    apply_update(old(self)@[i], updates@, now),
                ),
            !r ==> final(self)@ == old(self)@,
    {
        let now = now_millis();
        self.apply_memory_update(memory_id, tenant_id, updates, now)
    }

    /// Removes record `id` if tenant `tenant_id` owns it. Returns whether it did.
    pub fn delete_memory(&mut self, memory_id: u128, tenant_id: &str) -> (r: bool)
        requires
            old(self).wf(),
        ensures
            final(self).wf(),
            r == owns(old(self)@, memory_id, tenant_id@),
            r ==> exists|i: int|
                owned_at(old(self)@, i, memory_id, tenant_id@) && final(self)@ == old(self)@.remove(i),
            !r ==> final(self)@ == old(self)@,
    {
        let tenant = tenant_id.to_owned();
        match self.position(memory_id, &tenant) {
            Some(i) => {
                let ghost before = self@;
                let _gone = self.memories.remove(i);
                proof {
                    assert(self@ =~= before.remove(i as int));
                }
                true
            },
            None => false,
        }
    }

    /// The filtered records of the tenant, in store order, skipping `offset` of
    /// them and keeping at most `limit`. Tag filtering is not applied.
    #[verifier::spinoff_prover]
    pub fn list_memories(
        &self,
        tenant_id: &str,
        agent_id: Option<&str>,
        layer: Option<MemoryLayer>,
        limit: usize,
        offset: usize,
    ) -> (r: Vec<MemoryRecord>)
        requires
            self.wf(),
        ensures
            records_view(r@) == page(
                selected(self@, tenant_id@, opt_str_view(agent_id), layer),
                offset as int,
                limit as int,
            ),
    {
        let tenant = tenant_id.to_owned();
        let agent: Option<String> = match agent_id {
            Some(a) => Some(a.to_owned()),
            None => None,
        };
        let ghost agent_v = opt_str_view(agent_id);
        let mut out: Vec<MemoryRecord> = Vec::new();
        let mut seen: usize = 0;
        let mut i: usize = 0;
        while i < self.memories.len()
            invariant
                i <= self.memories.len(),
                self@.len() == self.memories@.len(),
                tenant@ == tenant_id@,
                opt_string_view(agent) == agent_v,
                seen as int == selected(self@.subrange(0, i as int), tenant@, agent_v, layer).len(),
                records_view(out@) == page(
                    selected(self@.subrange(0, i as int), tenant@, agent_v, layer),
                    offset as int,
                    limit as int,
                ),
            decreases self.memories.len() - i,
        {
            let ghost sel = selected(self@.subrange(0, i as int), tenant@, agent_v, layer);
            proof {
                assert(self@[i as int] == self.memories@[i as int]@);
                assert(self@.subrange(0, i + 1).drop_last() =~= self@.subrange(0, i as int));
                selected_len_le(self@.subrange(0, i as int), tenant@, agent_v, layer);
            }
            let ghost next_sel = selected(self@.subrange(0, i + 1), tenant@, agent_v, layer);
            let ghost x = self@[i as int];
            let ghost n = seen as int;
            proof {
                assert(self@.subrange(0, i + 1).last() == x);
                assert(sel.len() == n);
                assert(records_view(out@).len() == out@.len());
                assert(page(sel, offset as int, limit as int) == sel.subrange(
                    if offset < n { offset as int } else { n },
                    if offset + limit < n { offset + limit } else { n },
                ));
            }
            if self.matches_at(i, &tenant, &agent, layer) {
                proof {
                    assert(next_sel == sel.push(x));
                }
                if seen >= offset && out.len() < limit {
                    let rec = self.memories[i].duplicate();
                    let ghost before_out = out@;
                    out.push(rec);
                    proof {
                        assert(n < offset + limit);
                        assert(page(next_sel, offset as int, limit as int) == sel.push(x).subrange(
                            offset as int,
                            n + 1,
                        ));
                        assert(records_view(out@) =~= records_view(before_out).push(rec@));
                        assert(sel.push(x).subrange(offset as int, n + 1) =~= sel.subrange(
                            offset as int,
                            n,
                        ).push(x));
                    }
                } else {
                    proof {
                        if seen >= offset {
                            assert(offset + limit <= n);
                            assert(page(next_sel, offset as int, limit as int) == sel.push(x).subrange(
                                offset as int,
                                offset + limit,
                            ));
                            assert(sel.push(x).subrange(offset as int, offset + limit) =~= sel.subrange(
                                offset as int,
                                offset + limit,
                            ));
                        } else {
                            assert(page(next_sel, offset as int, limit as int) =~= Seq::<RecordView>::empty());
                            assert(page(sel, offset as int, limit as int) =~= Seq::<RecordView>::empty());
                        }
                    }
                }
                seen = seen + 1;
            } else {
                proof {
                    assert(next_sel == sel);
                }
            }
            i = i + 1;
        }
        proof {
            assert(self@.subrange(0, self@.len() as int) =~= self@);
        }
        out
    }

    /// How many records of the tenant pass the agent and layer filters.
    pub fn count_memories(&self, tenant_id: &str, agent_id: Option<&str>, layer: Option<MemoryLayer>) -> (r:
        usize)
        requires
            self.wf(),
        ensures
            r as int == selected(self@, tenant_id@, opt_str_view(agent_id), layer).len(),
    {
        let tenant = tenant_id.to_owned();
        let agent: Option<String> = match agent_id {
            Some(a) => Some(a.to_owned()),
            None => None,
        };
        let ghost agent_v = opt_str_view(agent_id);
        let mut count: usize = 0;
        let mut i: usize = 0;
        while i < self.memories.len()
            invariant
                i <= self.memories.len(),
                self@.len() == self.memories@.len(),
                tenant@ == tenant_id@,
                opt_string_view(agent) == agent_v,
                count as int == selected(self@.subrange(0, i as int), tenant@, agent_v, layer).len(),
            decreases self.memories.len() - i,
        {
            proof {
                assert(self@.subrange(0, i + 1).drop_last() =~= self@.subrange(0, i as int));
                selected_len_le(self@.subrange(0, i as int), tenant@, agent_v, layer);
            }
            if self.matches_at(i, &tenant, &agent, layer) {
                count = count + 1;
            }
            i = i + 1;
        }
        proof {
            assert(self@.subrange(0, self@.len() as int) =~= self@);
        }
        count
    }

    fn matches_at(&self, i: usize, tenant: &String, agent: &Option<String>, layer: Option<MemoryLayer>) -> (r:
        bool)
        requires
            i < self@.len(),
        ensures
            r == record_matches(self@[i as int], tenant@, opt_string_view(*agent), layer),
    {
        proof {
            assert(self@[i as int] == self.memories@[i as int]@);
        }
        let m = &self.memories[i];
        if m.tenant_id != *tenant {
            return false;
        }
        let agent_ok = match agent {
            Some(a) => m.agent_id == *a,
            None => true,
        };
        let layer_ok = match layer {
            Some(l) => m.layer == l,
            None => true,
        };
        agent_ok && layer_ok
    }
}

pub open spec fn opt_str_view(a: Option<&str>) -> Option<Seq<char>> {
    match a {
        Some(s) => Some(s@),
        None => None,
    }
}

pub open spec fn opt_string_view(a: Option<String>) -> Option<Seq<char>> {
    match a {
        Some(s) => Some(s@),
        None => None,
    }
}

proof fn selected_len_le(
    s: Seq<RecordView>,
    tenant: Seq<char>,
    agent: Option<Seq<char>>,
    layer: Option<MemoryLayer>,
)
    ensures
        selected(s, tenant, agent, layer).len() <= s.len(),
    decreases s.len(),
{
    if s.len() > 0 {
        selected_len_le(s.drop_last(), tenant, agent, layer);
    }
}


/// Tenant isolation: a record is owned by its own tenant and by no other, so
/// `get_memory`, `update_memory` and `delete_memory` under any other tenant report
/// it absent and leave the store unchanged, and its own tenant still finds it.
pub proof fn lemma_tenant_isolation(store: InMemoryStorage, i: int, other: Seq<char>)
    requires
        store.wf(),
        0 <= i < store@.len(),
        store@[i].tenant_id != other,
    ensures
        !owns(store@, store@[i].id, other),
        owns(store@, store@[i].id, store@[i].tenant_id),
{
    assert(owned_at(store@, i, store@[i].id, store@[i].tenant_id));
}

/// A record of the tenant appended to the store raises the tenant's unfiltered
/// count by exactly one.
pub proof fn lemma_store_counts_once(s: Seq<RecordView>, r: RecordView)
    ensures
        selected(s.push(r), r.tenant_id, None, None).len() == selected(s, r.tenant_id, None, None).len()
            + 1,
{
    assert(s.push(r).drop_last() =~= s);
}

/// When every record in the store belongs to the tenant, the tenant's unfiltered
/// count is the number of records: `n` successful stores into an empty store
/// under one tenant count `n`.
pub proof fn lemma_count_all_of_tenant(s: Seq<RecordView>, tenant: Seq<char>)
    requires
        forall|i: int| 0 <= i < s.len() ==> #[trigger] s[i].tenant_id == tenant,
    ensures
        selected(s, tenant, None, None).len() == s.len(),
    decreases s.len(),
{
    if s.len() > 0 {
        lemma_count_all_of_tenant(s.drop_last(), tenant);
        assert(s.last() == s[s.len() - 1]);
    }
}


/// `s` with every occurrence of `v` taken out.
pub open spec fn without(s: Seq<u128>, v: u128) -> Seq<u128>
    decreases s.len(),
{
    if s.len() == 0 {
        s
    } else {
        let rest = without(s.drop_last(), v);
        if s.last() == v {
            rest
        } else {
            rest.push(s.last())
        }
    }
}

proof fn lemma_without(s: Seq<u128>, v: u128)
    ensures
        without(s, v).len() <= s.len(),
        s.contains(v) ==> without(s, v).len() < s.len(),
        forall|x: u128| #[trigger] without(s, v).contains(x) ==> s.contains(x) && x != v,
    decreases s.len(),
{
    if s.len() > 0 {
        let d = s.drop_last();
        lemma_without(d, v);
        let rest = without(d, v);
        if s.contains(v) && s.last() != v {
            let k = choose|k: int| 0 <= k < s.len() && s[k] == v;
            assert(k < d.len());
            assert(d[k] == v);
        }
        assert forall|x: u128| without(s, v).contains(x) implies s.contains(x) && x != v by {
            let k = choose|k: int| 0 <= k < without(s, v).len() && without(s, v)[k] == x;
            if k < rest.len() {
                assert(rest[k] == x);
                assert(rest.contains(x));
                assert(d.contains(x) && x != v);
                let j = choose|j: int| 0 <= j < d.len() && d[j] == x;
                assert(s[j] == d[j]);
            } else {
                assert(s[s.len() - 1] == x);
            }
        }
    }
}

/// A sequence of fewer than `n` identifiers misses some identifier below `n`.
pub proof fn lemma_unused_below(s: Seq<u128>, n: nat)
    requires
        s.len() < n,
        n <= u128::MAX as nat + 1,
    ensures
        exists|c: u128| c < n && !s.contains(c),
    decreases n,
{
    let v = (n - 1) as u128;
    if !s.contains(v) {
        assert(v < n && !s.contains(v));
    } else {
        lemma_without(s, v);
        let t = without(s, v);
        lemma_unused_below(t, (n - 1) as nat);
        let c = choose|c: u128| c < n - 1 && !t.contains(c);
        if s.contains(c) {
            assert(false) by {
                assert(c != v);
                let k = choose|k: int| 0 <= k < s.len() && s[k] == c;
                lemma_without_keeps(s, v, k);
            }
        }
    }
}

proof fn lemma_without_keeps(s: Seq<u128>, v: u128, k: int)
    requires
        0 <= k < s.len(),
        s[k] != v,
    ensures
        without(s, v).contains(s[k]),
    decreases s.len(),
{
    let d = s.drop_last();
    let rest = without(d, v);
    if k < s.len() - 1 {
        assert(d[k] == s[k]);
        lemma_without_keeps(d, v, k);
        let j = choose|j: int| 0 <= j < rest.len() && rest[j] == s[k];
        if s.last() != v {
            assert(without(s, v)[j] == s[k]);
        }
    } else {
        assert(without(s, v)[rest.len() as int] == s[k]);
    }
}

/// The records appended to `before` by successive stores carry pairwise
/// distinct identifiers, none of which `before` used: a well-formed store never
/// holds two records under one identifier.
pub proof fn lemma_appended_ids_distinct(before: Seq<RecordView>, added: Seq<RecordView>)
    requires
        ids_unique(before + added),
    ensures
        forall|i: int, j: int|
            0 <= i < added.len() && 0 <= j < added.len() && i != j ==> added[i].id != added[j].id,
        forall|i: int| 0 <= i < added.len() ==> !id_used(before, #[trigger] added[i].id),
{
    let all = before + added;
    assert forall|i: int, j: int|
        0 <= i < added.len() && 0 <= j < added.len() && i != j implies added[i].id != added[j].id by {
        assert(all[before.len() + i] == added[i]);
        assert(all[before.len() + j] == added[j]);
    }
    assert forall|i: int| 0 <= i < added.len() implies !id_used(before, #[trigger] added[i].id) by {
        assert(all[before.len() + i] == added[i]);
        if id_used(before, added[i].id) {
            let k = choose|k: int| 0 <= k < before.len() && before[k].id == added[i].id;
            assert(all[k] == before[k]);
        }
    }
}

} // verus!
