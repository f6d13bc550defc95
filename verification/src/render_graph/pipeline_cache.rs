//! Pipelines, built once per distinct set of shaders and reused across frames.

use std::collections::HashMap;
use std::collections::hash_map::DefaultHasher;
use std::hash::Hasher;

use vstd::bytes::{u32_to_le_bytes, u64_to_le_bytes};
use vstd::prelude::*;
use vstd::std_specs::hash::DefaultHasherAdditionalSpecFns;

use crate::error::{SrError, SrResult};
use crate::text::{decimal, push_decimal};

verus! {

broadcast use vstd::std_specs::hash::group_hash_axioms;

/// Lightweight reference to a pipeline interned in a [`PipelineCache`].
#[derive(Copy, Clone, Debug, PartialEq, Eq, Hash, Structural)]
pub struct PipelineHandle(pub u32);

/// A pipeline owned by the cache, by the tokens of its objects. Ray tracing also owns
/// its shader binding table, built alongside the pipeline.
#[derive(Copy, Clone, Debug, PartialEq, Eq, Structural)]
pub enum CachedPipeline {
    Compute(u64),
    RayTracing(u64, u64),
    Graphics(u64),
}

/// Content-addressed cache of pipelines. Passes describe their shaders every frame,
/// but the pipeline is built exactly once per distinct key and reused.
///
/// Entries are addressed by [`PipelineHandle`], an index into `entries`; `by_key`
/// finds the handle of a key. Nothing is ever evicted.
pub struct PipelineCache {
    pub entries: Vec<CachedPipeline>,
    pub by_key: HashMap<u64, PipelineHandle>,
}

/// What interning a key does: a key that is known gives its handle and changes
/// nothing. Otherwise the pipeline is built; it becomes the next entry and the key
/// leads to it, or the error is handed on and nothing changes.
pub open spec fn interns<F: FnOnce() -> SrResult<CachedPipeline>>(
    before: PipelineCache,
    key: u64,
    build: F,
    after: PipelineCache,
    handle: SrResult<PipelineHandle>,
) -> bool {
    if before.by_key@.contains_key(key) {
        (handle matches Ok(known) && known == before.by_key@[key]) && after == before
    } else {
        match handle {
            Ok(fresh) => {
                &&& fresh.0 == before.entries.len()
                &&& after.by_key@ == before.by_key@.insert(key, fresh)
                &&& after.entries@.len() == before.entries@.len() + 1
                &&& after.entries@.drop_last() == before.entries@
                &&& build.ensures((), Ok(after.entries@.last()))
            },
            Err(e) => after == before && build.ensures((), Err(e)),
        }
    }
}

impl PipelineCache {
    /// Every handle that was given out leads to an entry.
    pub open spec fn wf(self) -> bool {
        forall|key: u64| #[trigger]
            self.by_key@.contains_key(key) ==> self.by_key@[key].0 < self.entries.len()
    }

    /// The pipeline a handle leads to.
    pub open spec fn entry(self, handle: PipelineHandle) -> Option<CachedPipeline> {
        if handle.0 < self.entries.len() {
            Some(self.entries[handle.0 as int])
        } else {
            None
        }
    }

    /// A cache of nothing.
    pub fn new() -> (cache: Self)
        ensures
            cache.entries@.len() == 0,
            cache.by_key@ == Map::<u64, PipelineHandle>::empty(),
            cache.wf(),
    {
        PipelineCache { entries: Vec::new(), by_key: HashMap::new() }
    }

    /// The pipeline a handle leads to.
    pub fn get(&self, handle: PipelineHandle) -> (entry: Option<&CachedPipeline>)
        ensures
            match entry {
                Some(found) => self.entry(handle) == Some(*found),
                None => self.entry(handle) is None,
            },
    {
        if (handle.0 as usize) < self.entries.len() {
            Some(&self.entries[handle.0 as usize])
        } else {
            None
        }
    }

    /// The handle for `key` if it was interned before. Otherwise builds the pipeline,
    /// stores it and gives it the next handle; an error in building leaves the cache
    /// as it was.
    pub fn intern<F: FnOnce() -> SrResult<CachedPipeline>>(
        &mut self,
        key: u64,
        build: F,
    ) -> (handle: SrResult<PipelineHandle>)
        requires
            old(self).wf(),
            old(self).entries.len() <= u32::MAX,
            build.requires(()),
        ensures
            final(self).wf(),
            interns(*old(self), key, build, *final(self), handle),
    {
        if let Some(handle) = self.by_key.get(&key) {
            return Ok(*handle);
        }
        let entry = match build() {
            Ok(entry) => entry,
            Err(e) => {
                return Err(e);
            },
        };
        let handle = PipelineHandle(self.entries.len() as u32);
        self.entries.push(entry);
        self.by_key.insert(key, handle);
        proof {
            assert(self.entries@.drop_last() =~= old(self).entries@);
        }
        Ok(handle)
    }
}

/// What is said of a handle that does not lead to a pipeline of the wanted kind.
pub open spec fn not_cached(handle: PipelineHandle, kind: Seq<char>) -> Seq<char> {
    "render graph: pipeline handle PipelineHandle("@ + decimal(handle.0 as nat)
        + ") is not a cached "@ + kind + " pipeline"@
}

/// The error of a handle that does not lead to a pipeline of the wanted kind.
fn not_cached_error(handle: PipelineHandle, kind: &str) -> (e: SrError)
    ensures
        e.is_custom(not_cached(handle, kind@)),
{
    let mut text = String::from_str("render graph: pipeline handle PipelineHandle(");
    push_decimal(&mut text, handle.0 as u64);
    text.append(") is not a cached ");
    text.append(kind);
    text.append(" pipeline");
    proof {
        assert(text@ =~= not_cached(handle, kind@));
    }
    SrError::new_custom(text)
}

impl PipelineCache {
    /// The compute pipeline a handle leads to.
    pub fn compute_pipeline(&self, handle: PipelineHandle) -> (r: SrResult<u64>)
        ensures
            match r {
                Ok(pipeline) => self.entry(handle) == Some(CachedPipeline::Compute(pipeline)),
                Err(e) => !(self.entry(handle) matches Some(CachedPipeline::Compute(_)))
                    && e.is_custom(not_cached(handle, "compute"@)),
            },
    {
        match self.get(handle) {
            Some(CachedPipeline::Compute(pipeline)) => Ok(*pipeline),
            _ => Err(not_cached_error(handle, "compute")),
        }
    }

    /// The ray-tracing pipeline and shader binding table a handle leads to.
    pub fn raytracing_pipeline(&self, handle: PipelineHandle) -> (r: SrResult<(u64, u64)>)
        ensures
            match r {
                Ok((pipeline, table)) => self.entry(handle) == Some(
                    CachedPipeline::RayTracing(pipeline, table),
                ),
                Err(e) => !(self.entry(handle) matches Some(CachedPipeline::RayTracing(_, _)))
                    && e.is_custom(not_cached(handle, "ray-tracing"@)),
            },
    {
        match self.get(handle) {
            Some(CachedPipeline::RayTracing(pipeline, table)) => Ok((*pipeline, *table)),
            _ => Err(not_cached_error(handle, "ray-tracing")),
        }
    }

    /// The graphics pipeline a handle leads to.
    pub fn graphics_pipeline(&self, handle: PipelineHandle) -> (r: SrResult<u64>)
        ensures
            match r {
                Ok(pipeline) => self.entry(handle) == Some(CachedPipeline::Graphics(pipeline)),
                Err(e) => !(self.entry(handle) matches Some(CachedPipeline::Graphics(_)))
                    && e.is_custom(not_cached(handle, "graphics"@)),
            },
    {
        match self.get(handle) {
            Some(CachedPipeline::Graphics(pipeline)) => Ok(*pipeline),
            _ => Err(not_cached_error(handle, "graphics")),
        }
    }
}

/// What is hashed for a list of byte strings: each after its length.
pub open spec fn hashed_parts(parts: Seq<Seq<u8>>, n: nat) -> Seq<Seq<u8>>
    decreases n,
{
    if n == 0 {
        Seq::empty()
    } else {
        hashed_parts(parts, (n - 1) as nat).push(
            vstd::bytes::spec_u64_to_le_bytes(parts[n - 1].len() as u64),
        ).push(parts[n - 1])
    }
}

/// The views of byte strings.
pub open spec fn part_views(parts: Seq<&[u8]>) -> Seq<Seq<u8>> {
    Seq::new(parts.len(), |i: int| parts[i]@)
}

/// The key of a kind of pipeline and the byte strings it is made from.
pub open spec fn cache_key(kind: u8, parts: Seq<Seq<u8>>) -> u64 {
    DefaultHasher::spec_finish(seq![seq![kind]] + hashed_parts(parts, parts.len()))
}

/// Hashes byte strings into a cache key, after a kind so that a compute shader and a
/// graphics shader of the same bytes are told apart.
pub fn pipeline_cache_key(kind: u8, parts: &[&[u8]]) -> (key: u64)
    ensures
        key == cache_key(kind, part_views(parts@)),
{
    let mut hasher = DefaultHasher::new();
    let mut first: Vec<u8> = Vec::new();
    first.push(kind);
    hasher.write(first.as_slice());
    let ghost views = part_views(parts@);
    proof {
        assert(first@ =~= seq![kind]);
        assert(hasher@ =~= seq![seq![kind]] + hashed_parts(views, 0));
    }
    let mut i: usize = 0;
    while i < parts.len()
        invariant
            i <= parts.len(),
            views == part_views(parts@),
            hasher@ == seq![seq![kind]] + hashed_parts(views, i as nat),
        decreases parts.len() - i,
    {
        let part: &[u8] = parts[i];
        let length = u64_to_le_bytes(part.len() as u64);
        hasher.write(length.as_slice());
        hasher.write(part);
        proof {
            assert(views[i as int] == part@);
            assert(hasher@ =~= seq![seq![kind]] + hashed_parts(views, (i + 1) as nat));
        }
        i = i + 1;
    }
    hasher.finish()
}

/// The key of a compute pipeline.
pub open spec fn compute_key(spirv: Seq<u8>) -> u64 {
    cache_key(0, seq![spirv])
}

/// The key of a ray-tracing pipeline.
pub open spec fn raytracing_key(
    ray_gen: Seq<u8>,
    miss: Seq<u8>,
    closest_hit: Seq<u8>,
    any_hit: Seq<u8>,
) -> u64 {
    cache_key(1, seq![ray_gen, miss, closest_hit, any_hit])
}

/// The key of a graphics pipeline. The vertex layout is not part of it.
pub open spec fn graphics_key(vertex: Seq<u8>, fragment: Seq<u8>, color_format: i32) -> u64 {
    cache_key(
        2,
        seq![vertex, fragment, vstd::bytes::spec_u32_to_le_bytes(color_format as u32)],
    )
}

/// The key of a compute pipeline.
pub fn compute_pipeline_key(spirv: &[u8]) -> (key: u64)
    ensures
        key == compute_key(spirv@),
{
    let mut parts: Vec<&[u8]> = Vec::new();
    parts.push(spirv);
    proof {
        assert(part_views(parts@) =~= seq![spirv@]);
    }
    pipeline_cache_key(0, parts.as_slice())
}

/// The key of a ray-tracing pipeline.
pub fn raytracing_pipeline_key(
    ray_gen: &[u8],
    miss: &[u8],
    closest_hit: &[u8],
    any_hit: &[u8],
) -> (key: u64)
    ensures
        key == raytracing_key(ray_gen@, miss@, closest_hit@, any_hit@),
{
    let mut parts: Vec<&[u8]> = Vec::new();
    parts.push(ray_gen);
    parts.push(miss);
    parts.push(closest_hit);
    parts.push(any_hit);
    proof {
        assert(part_views(parts@) =~= seq![ray_gen@, miss@, closest_hit@, any_hit@]);
    }
    pipeline_cache_key(1, parts.as_slice())
}

/// The key of a graphics pipeline.
pub fn graphics_pipeline_key(vertex: &[u8], fragment: &[u8], color_format: i32) -> (key: u64)
    ensures
        key == graphics_key(vertex@, fragment@, color_format),
{
    let format = u32_to_le_bytes(color_format as u32);
    let mut parts: Vec<&[u8]> = Vec::new();
    parts.push(vertex);
    parts.push(fragment);
    parts.push(format.as_slice());
    proof {
        assert(part_views(parts@) =~= seq![
            vertex@,
            fragment@,
            vstd::bytes::spec_u32_to_le_bytes(color_format as u32),
        ]);
    }
    pipeline_cache_key(2, parts.as_slice())
}

/// A pipeline that was interned is found again: its key gives the same handle from then
/// on, the handle leads to an entry, and no earlier handle changes its meaning.
pub proof fn law_interned_pipelines_stay<F: FnOnce() -> SrResult<CachedPipeline>>(
    before: PipelineCache,
    key: u64,
    build: F,
    after: PipelineCache,
    handle: PipelineHandle,
    other: PipelineHandle,
)
    requires
        before.wf(),
        before.entries.len() <= u32::MAX,
        interns(before, key, build, after, Ok(handle)),
    ensures
        after.by_key@.contains_key(key),
        after.by_key@[key] == handle,
        after.entry(handle) is Some,
        before.entry(other) is Some ==> after.entry(other) == before.entry(other),
{
    if !before.by_key@.contains_key(key) {
        assert(after.entries@.drop_last()[other.0 as int] == before.entries@[other.0 as int]);
        if before.entry(other) is Some {
            assert(after.entries@[other.0 as int] == after.entries@.drop_last()[other.0 as int]);
        }
    }
}

} // verus!
