//! The Sonolus server data model: resource locators, level and engine
//! information, and the entities of a level's chart.
//!
//! Numbers that the chart stores as single-precision floats (beats, tempos,
//! the music offset) are carried as their IEEE 754 bit patterns (`u32`).
use vstd::prelude::*;
use crate::text::str_eq;

verus! {

/// A locator of a server resource: its URL and, for most servers, a content hash.
pub struct Srl {
    pub hash: Option<String>,
    pub url: String,
}

/// One page of a server's level list.
pub struct LevelListResponse {
    pub items: Vec<LevelInfo>,
    pub page_count: i32,
}

/// A server's answer that wraps a single item.
pub struct ItemResponse<T> {
    pub item: T,
}

/// One named datum of a chart entity: a number, a reference to another
/// entity's name, or both or neither.
#[derive(Debug)]
pub struct LevelEntityData {
    pub name: String,
    pub value: Option<u32>,
    pub reference: Option<String>,
}

/// An entity of a chart: a note, a connector, a tempo change and so on.
#[derive(Debug)]
pub struct LevelEntity {
    pub archetype: String,
    pub data: Vec<LevelEntityData>,
    pub name: Option<String>,
}

/// The list of clips of an effect package.
pub struct EffectData {
    pub clips: Vec<EffectClip>,
}

/// A clip of an effect package: the clip's name and the file that holds it.
pub struct EffectClip {
    pub name: String,
    pub filename: String,
}

/// A level's chart: the music offset (bit pattern of seconds) and the entities.
#[derive(Debug)]
pub struct LevelData {
    pub bgm_offset: u32,
    pub entities: Vec<LevelEntity>,
}

/// Information about a level.
pub struct LevelInfo {
    pub title: String,
    pub artists: String,
    pub author: String,
    pub name: String,
    pub rating: i32,
    pub bgm: Srl,
    pub data: Srl,
    pub engine: EngineInfo,
}

/// Information about an engine.
pub struct EngineInfo {
    pub version: i32,
    pub effect: EffectInfo,
}

/// Where an engine's effect package lies: the audio archive and the clip list.
pub struct EffectInfo {
    pub audio: Srl,
    pub data: Srl,
}

/// Abstract value of a `LevelEntityData`.
pub ghost struct EntityDataView {
    pub name: Seq<char>,
    pub value: Option<u32>,
    pub reference: Option<Seq<char>>,
}

/// Abstract value of a `LevelEntity`.
pub ghost struct EntityView {
    pub archetype: Seq<char>,
    pub data: Seq<EntityDataView>,
    pub name: Option<Seq<char>>,
}

impl View for LevelEntityData {
    type V = EntityDataView;

    open spec fn view(&self) -> EntityDataView {
        EntityDataView { name: self.name@, value: self.value, reference: self.reference.deep_view() }
    }
}

impl View for LevelEntity {
    type V = EntityView;

    open spec fn view(&self) -> EntityView {
        EntityView {
            archetype: self.archetype@,
            data: self.data@.map_values(|d: LevelEntityData| d@),
            name: self.name.deep_view(),
        }
    }
}

/// The abstract values of a list of entities.
pub open spec fn entities_view(s: Seq<LevelEntity>) -> Seq<EntityView> {
    s.map_values(|e: LevelEntity| e@)
}

/// The number under the first datum named `key`; `None` when there is no such
/// datum or it holds no number. Data after the first match are not looked at.
pub open spec fn value_of(data: Seq<EntityDataView>, key: Seq<char>) -> Option<u32>
    decreases data.len(),
{
    if data.len() == 0 {
        None
    } else if data[0].name == key {
        data[0].value
    } else {
        value_of(data.drop_first(), key)
    }
}

/// The reference under the first datum named `key`; `None` when there is no
/// such datum or it holds no reference.
pub open spec fn reference_of(data: Seq<EntityDataView>, key: Seq<char>) -> Option<Seq<char>>
    decreases data.len(),
{
    if data.len() == 0 {
        None
    } else if data[0].name == key {
        data[0].reference
    } else {
        reference_of(data.drop_first(), key)
    }
}

/// The first entity of `entities` whose name is `name`.
pub open spec fn entity_named(entities: Seq<EntityView>, name: Seq<char>) -> Option<EntityView>
    decreases entities.len(),
{
    if entities.len() == 0 {
        None
    } else if entities[0].name == Some(name) {
        Some(entities[0])
    } else {
        entity_named(entities.drop_first(), name)
    }
}

/// The entity that `e` refers to under `key`, looked up among `entities`.
pub open spec fn resolve_reference(entities: Seq<EntityView>, e: EntityView, key: Seq<char>) -> Option<EntityView> {
    match reference_of(e.data, key) {
        None => None,
        Some(r) => entity_named(entities, r),
    }
}

fn clone_opt_string(s: &Option<String>) -> (r: Option<String>)
    ensures
        r.deep_view() == s.deep_view(),
{
    match s {
        Some(x) => Some(x.clone()),
        None => None,
    }
}

impl Clone for LevelEntityData {
    fn clone(&self) -> (r: Self)
        ensures
            r@ == self@,
    {
        LevelEntityData {
            name: self.name.clone(),
            value: self.value,
            reference: clone_opt_string(&self.reference),
        }
    }
}

impl Clone for LevelEntity {
    fn clone(&self) -> (r: Self)
        ensures
            r@ == self@,
    {
        let mut data: Vec<LevelEntityData> = Vec::new();
        let mut i: usize = 0;
        while i < self.data.len()
            invariant
                i <= self.data.len(),
                data.len() == i,
                forall|k: int| 0 <= k < i ==> (#[trigger] data@[k])@ == self.data@[k]@,
            decreases self.data.len() - i,
        {
            let d = self.data[i].clone();
            data.push(d);
            i = i + 1;
        }
        assert(data@.map_values(|d: LevelEntityData| d@) =~= self.data@.map_values(|d: LevelEntityData| d@));
        LevelEntity { archetype: self.archetype.clone(), data, name: clone_opt_string(&self.name) }
    }
}

proof fn lemma_lookup_step(data: Seq<EntityDataView>, i: int, key: Seq<char>)
    requires
        0 <= i < data.len(),
        data[i].name != key,
    ensures
        value_of(data.subrange(i, data.len() as int), key) == value_of(data.subrange(i + 1, data.len() as int), key),
        reference_of(data.subrange(i, data.len() as int), key) == reference_of(
            data.subrange(i + 1, data.len() as int),
            key,
        ),
{
    assert(data.subrange(i, data.len() as int).drop_first() =~= data.subrange(i + 1, data.len() as int));
}

proof fn lemma_entity_step(entities: Seq<EntityView>, i: int, name: Seq<char>)
    requires
        0 <= i < entities.len(),
        entities[i].name != Some(name),
    ensures
        entity_named(entities.subrange(i, entities.len() as int), name) == entity_named(
            entities.subrange(i + 1, entities.len() as int),
            name,
        ),
{
    assert(entities.subrange(i, entities.len() as int).drop_first() =~= entities.subrange(
        i + 1,
        entities.len() as int,
    ));
}

impl LevelEntity {
    /// The number stored under the first datum named `key`, if that datum
    /// holds one.
    pub fn get_value(&self, key: &str) -> (r: Option<u32>)
        ensures
            r == value_of(self@.data, key@),
    {
        let ghost dv = self@.data;
        let mut i: usize = 0;
        assert(dv.subrange(0, dv.len() as int) =~= dv);
        while i < self.data.len()
            invariant
                i <= self.data.len(),
                dv == self@.data,
                dv.len() == self.data.len(),
                value_of(dv, key@) == value_of(dv.subrange(i as int, dv.len() as int), key@),
            decreases self.data.len() - i,
        {
            let d = &self.data[i];
            assert(dv[i as int] == d@);
            if str_eq(&d.name, key) {
                assert(dv.subrange(i as int, dv.len() as int)[0] == d@);
                return d.value;
            }
            proof {
                lemma_lookup_step(dv, i as int, key@);
            }
            i = i + 1;
        }
        None
    }

    /// The reference stored under the first datum named `key`, if that datum
    /// holds one.
    pub fn get_ref_raw(&self, key: &str) -> (r: Option<String>)
        ensures
            r.deep_view() == reference_of(self@.data, key@),
    {
        let ghost dv = self@.data;
        let mut i: usize = 0;
        assert(dv.subrange(0, dv.len() as int) =~= dv);
        while i < self.data.len()
            invariant
                i <= self.data.len(),
                dv == self@.data,
                dv.len() == self.data.len(),
                reference_of(dv, key@) == reference_of(dv.subrange(i as int, dv.len() as int), key@),
            decreases self.data.len() - i,
        {
            let d = &self.data[i];
            assert(dv[i as int] == d@);
            if str_eq(&d.name, key) {
                assert(dv.subrange(i as int, dv.len() as int)[0] == d@);
                return clone_opt_string(&d.reference);
            }
            proof {
                lemma_lookup_step(dv, i as int, key@);
            }
            i = i + 1;
        }
        None
    }

    /// A copy of the entity of `entities` that this entity refers to under
    /// `key`: the first one whose name is the reference.
    pub fn get_ref(&self, entities: &[LevelEntity], key: &str) -> (r: Option<LevelEntity>)
        ensures
            match r {
                Some(e) => resolve_reference(entities_view(entities@), self@, key@) == Some(e@),
                None => resolve_reference(entities_view(entities@), self@, key@) is None,
            },
    {
        let target = match self.get_ref_raw(key) {
            Some(t) => t,
            None => return None,
        };
        let ghost ev = entities_view(entities@);
        let mut i: usize = 0;
        assert(ev.subrange(0, ev.len() as int) =~= ev);
        while i < entities.len()
            invariant
                i <= entities.len(),
                ev == entities_view(entities@),
                ev.len() == entities.len(),
                reference_of(self@.data, key@) == Some(target@),
                entity_named(ev, target@) == entity_named(ev.subrange(i as int, ev.len() as int), target@),
            decreases entities.len() - i,
        {
            let e = &entities[i];
            assert(ev[i as int] == e@);
            let matches = match &e.name {
                Some(n) => *n == target,
                None => false,
            };
            if matches {
                assert(ev.subrange(i as int, ev.len() as int)[0] == e@);
                return Some(e.clone());
            }
            proof {
                lemma_entity_step(ev, i as int, target@);
            }
            i = i + 1;
        }
        None
    }
}

} // verus!
