//! Meshes that come in while running: which are converted, uploaded and let go of.
//!
//! Numbers in floating point are carried by their bits, and assets by tokens.
use vstd::prelude::*;

use crate::assets::ResourceKey;
use crate::text::{decimal, push_decimal};

verus! {

// ---------------------------------------------------------------------------
// Sets of tokens
// ---------------------------------------------------------------------------

/// A set of tokens, in the order they came in.
#[derive(Debug)]
pub struct IdSet {
    pub ids: Vec<u64>,
}

/// Those of the first `n` tokens that are kept where `among` says whether the ones in
/// `other` or the ones outside are, in order.
pub open spec fn kept_ids(ids: Seq<u64>, other: Set<u64>, among: bool, n: nat) -> Seq<u64>
    decreases n,
{
    if 0 < n <= ids.len() {
        let before = kept_ids(ids, other, among, (n - 1) as nat);
        if other.contains(ids[n - 1]) == among {
            before.push(ids[n - 1])
        } else {
            before
        }
    } else {
        Seq::empty()
    }
}

proof fn lemma_kept(ids: Seq<u64>, other: Set<u64>, among: bool, n: nat)
    requires
        n <= ids.len(),
        ids.no_duplicates(),
    ensures
        kept_ids(ids, other, among, n).no_duplicates(),
        forall|id: u64| #[trigger]
            kept_ids(ids, other, among, n).contains(id) == (ids.take(n as int).contains(id)
                && other.contains(id) == among),
    decreases n,
{
    if n > 0 {
        let m = (n - 1) as nat;
        lemma_kept(ids, other, among, m);
        let before = kept_ids(ids, other, among, m);
        let last = ids[n - 1];
        assert(ids.take(n as int) =~= ids.take(m as int).push(last));
        assert(!ids.take(m as int).contains(last));
        assert(!before.contains(last));
    }
    assert forall|id: u64|
        #[trigger] kept_ids(ids, other, among, n).contains(id) == (ids.take(n as int).contains(id)
            && other.contains(id) == among) by {
        if n > 0 {
            let m = (n - 1) as nat;
            let before = kept_ids(ids, other, among, m);
            let last = ids[n - 1];
            lemma_contains_pushed(ids.take(m as int), last, id);
            lemma_contains_pushed(before, last, id);
            assert(before.contains(id) == (ids.take(m as int).contains(id) && other.contains(id)
                == among));
        }
    }
}

proof fn lemma_contains_pushed(list: Seq<u64>, last: u64, id: u64)
    ensures
        list.push(last).contains(id) <==> (list.contains(id) || id == last),
{
    let longer = list.push(last);
    if list.contains(id) {
        let i = choose|i: int| 0 <= i < list.len() && list[i] == id;
        assert(longer[i] == id);
    }
    if id == last {
        assert(longer[list.len() as int] == id);
    }
    if longer.contains(id) {
        let i = choose|i: int| 0 <= i < longer.len() && longer[i] == id;
        if i < list.len() {
            assert(list[i] == id);
        }
    }
}

impl IdSet {
    pub open spec fn view(&self) -> Set<u64> {
        self.ids@.to_set()
    }

    /// No token stands twice.
    pub open spec fn wf(self) -> bool {
        self.ids@.no_duplicates()
    }

    /// No tokens.
    pub fn new() -> (set: Self)
        ensures
            set.wf(),
            set@ == Set::<u64>::empty(),
    {
        let set = IdSet { ids: Vec::new() };
        proof {
            assert(set@ =~= Set::<u64>::empty());
        }
        set
    }

    /// Is a token in the set?
    pub fn contains(&self, id: u64) -> (r: bool)
        ensures
            r == self@.contains(id),
    {
        for i in 0..self.ids.len()
            invariant
                forall|j: int| 0 <= j < i ==> #[trigger] self.ids@[j] != id,
        {
            if self.ids[i] == id {
                assert(self.ids@.contains(id));
                return true;
            }
        }
        false
    }

    /// Puts a token into the set.
    pub fn insert(&mut self, id: u64)
        requires
            old(self).wf(),
        ensures
            final(self).wf(),
            final(self)@ == old(self)@.insert(id),
    {
        if !self.contains(id) {
            self.ids.push(id);
            proof {
                assert forall|other: u64| self@.contains(other) <==> old(self)@.insert(
                    id,
                ).contains(other) by {
                    lemma_contains_pushed(old(self).ids@, id, other);
                }
                assert(self@ =~= old(self)@.insert(id));
            }
        } else {
            assert(self@ =~= old(self)@.insert(id));
        }
    }

    /// The tokens that stand in `other`, or outside it, in order.
    fn filtered(&self, other: &IdSet, among: bool) -> (kept: Vec<u64>)
        ensures
            kept@ == kept_ids(self.ids@, other@, among, self.ids@.len()),
    {
        let mut kept: Vec<u64> = Vec::new();
        for i in 0..self.ids.len()
            invariant
                kept@ == kept_ids(self.ids@, other@, among, i as nat),
        {
            if other.contains(self.ids[i]) == among {
                kept.push(self.ids[i]);
            }
        }
        kept
    }

    /// Takes out what does not stand in `other`.
    pub fn retain(&mut self, other: &IdSet)
        requires
            old(self).wf(),
        ensures
            final(self).wf(),
            final(self)@ == old(self)@.intersect(other@),
    {
        self.ids = self.filtered(other, true);
        proof {
            let before = old(self).ids@;
            lemma_kept(before, other@, true, before.len());
            assert(before.take(before.len() as int) =~= before);
            assert forall|id: u64| self@.contains(id) <==> old(self)@.intersect(other@).contains(
                id,
            ) by {
                assert(before.take(before.len() as int).contains(id) == old(self)@.contains(id));
            }
            assert(self@ =~= old(self)@.intersect(other@));
        }
    }

    /// The tokens that do not stand in `other`, each once.
    pub fn difference(&self, other: &IdSet) -> (rest: Vec<u64>)
        requires
            self.wf(),
        ensures
            rest@.no_duplicates(),
            rest@.to_set() == self@.difference(other@),
    {
        let rest = self.filtered(other, false);
        proof {
            let all = self.ids@;
            lemma_kept(all, other@, false, all.len());
            assert(all.take(all.len() as int) =~= all);
            assert forall|id: u64| rest@.to_set().contains(id) <==> self@.difference(
                other@,
            ).contains(id) by {
                assert(all.take(all.len() as int).contains(id) == self@.contains(id));
            }
            assert(rest@.to_set() =~= self@.difference(other@));
        }
        rest
    }

    /// Takes a token out of the set.
    pub fn remove(&mut self, id: u64)
        requires
            old(self).wf(),
        ensures
            final(self).wf(),
            final(self)@ == old(self)@.remove(id),
    {
        let mut one = IdSet::new();
        one.insert(id);
        self.ids = self.filtered(&one, false);
        proof {
            let before = old(self).ids@;
            lemma_kept(before, one@, false, before.len());
            assert(before.take(before.len() as int) =~= before);
            assert forall|other: u64| self@.contains(other) <==> old(self)@.remove(id).contains(
                other,
            ) by {
                assert(before.take(before.len() as int).contains(other) == old(self)@.contains(
                    other,
                ));
            }
            assert(self@ =~= old(self)@.remove(id));
        }
    }
}

// ---------------------------------------------------------------------------
// Materials
// ---------------------------------------------------------------------------

/// The bits of one.
pub const ONE: u32 = 0x3f80_0000;

/// The bits of one and a half.
pub const ONE_AND_A_HALF: u32 = 0x3fc0_0000;

/// The bits of a half.
pub const HALF: u32 = 0x3f00_0000;

/// The factors of a material without textures.
#[derive(Clone, Copy, Debug)]
pub struct SunrayMaterial {
    pub base_color: [u32; 4],
    pub metallic: u32,
    pub roughness: u32,
    pub emissive: [u32; 3],
    pub emissive_strength: u32,
    pub ior: u32,
    pub transmission: u32,
}

/// Whether a material is white, rough and dark, with the refraction of glass.
pub open spec fn is_default(material: SunrayMaterial) -> bool {
    &&& material.base_color@ == seq![ONE, ONE, ONE, ONE]
    &&& material.metallic == 0
    &&& material.roughness == ONE
    &&& material.emissive@ == seq![0u32, 0, 0]
    &&& material.emissive_strength == ONE
    &&& material.ior == ONE_AND_A_HALF
    &&& material.transmission == 0
}

impl Default for SunrayMaterial {
    /// White, rough and dark, with the refraction of glass.
    fn default() -> (material: Self)
        ensures
            is_default(material),
    {
        let material = SunrayMaterial {
            base_color: [ONE, ONE, ONE, ONE],
            metallic: 0,
            roughness: ONE,
            emissive: [0, 0, 0],
            emissive_strength: ONE,
            ior: ONE_AND_A_HALF,
            transmission: 0,
        };
        proof {
            assert(material.base_color@ =~= seq![ONE, ONE, ONE, ONE]);
            assert(material.emissive@ =~= seq![0u32, 0, 0]);
        }
        material
    }
}

/// A material as the renderer takes it. Textures are numbers.
#[derive(Clone, Copy, Debug)]
pub struct Material {
    pub base_color_factor: [u32; 4],
    pub metallic_factor: u32,
    pub roughness_factor: u32,
    pub base_color_texture_index: Option<usize>,
    pub metallic_roughness_texture_index: Option<usize>,
    pub normal_texture_index: Option<usize>,
    pub occlusion_texture_index: Option<usize>,
    pub emissive_factor: [u32; 3],
    pub emissive_strength: u32,
    pub emissive_texture_index: Option<usize>,
    /// Whether the alpha is ignored.
    pub opaque: bool,
    pub alpha_cutoff: u32,
    pub double_sided: bool,
    pub transmission_factor: u32,
    pub ior: u32,
}

impl SunrayMaterial {
    /// The material as the renderer takes it: opaque, with one side and no textures.
    pub open spec fn gltf_material(self) -> Material {
        Material {
            base_color_factor: self.base_color,
            metallic_factor: self.metallic,
            roughness_factor: self.roughness,
            base_color_texture_index: None,
            metallic_roughness_texture_index: None,
            normal_texture_index: None,
            occlusion_texture_index: None,
            emissive_factor: self.emissive,
            emissive_strength: self.emissive_strength,
            emissive_texture_index: None,
            opaque: true,
            alpha_cutoff: HALF,
            double_sided: false,
            transmission_factor: self.transmission,
            ior: self.ior,
        }
    }

    /// The material as the renderer takes it.
    pub fn to_gltf(self) -> (material: Material)
        ensures
            material == self.gltf_material(),
    {
        Material {
            base_color_factor: self.base_color,
            metallic_factor: self.metallic,
            roughness_factor: self.roughness,
            base_color_texture_index: None,
            metallic_roughness_texture_index: None,
            normal_texture_index: None,
            occlusion_texture_index: None,
            emissive_factor: self.emissive,
            emissive_strength: self.emissive_strength,
            emissive_texture_index: None,
            opaque: true,
            alpha_cutoff: HALF,
            double_sided: false,
            transmission_factor: self.transmission,
            ior: self.ior,
        }
    }
}

// ---------------------------------------------------------------------------
// Conversion
// ---------------------------------------------------------------------------

/// What the corners of a mesh make up.
#[derive(Clone, Copy, Debug, PartialEq, Eq, Structural)]
pub enum Topology {
    PointList,
    LineList,
    LineStrip,
    TriangleList,
    TriangleStrip,
}

/// The indices of a mesh.
#[derive(Debug)]
pub enum MeshIndices {
    U16(Vec<u16>),
    U32(Vec<u32>),
}

/// A mesh as it comes in. What is missing, or of another type than expected, is absent.
#[derive(Debug)]
pub struct MeshSource {
    pub topology: Topology,
    pub positions: Option<Vec<[u32; 3]>>,
    pub normals: Option<Vec<[u32; 3]>>,
    pub uvs: Option<Vec<[u32; 2]>>,
    pub tangents: Option<Vec<[u32; 4]>>,
    pub indices: Option<MeshIndices>,
}

/// A corner as the renderer takes it.
#[derive(Clone, Copy, Debug)]
pub struct Vertex {
    pub position: [u32; 3],
    pub normal: [u32; 3],
    pub tangent: [u32; 4],
    pub base_color_tex_coord: [u32; 2],
    pub metallic_roughness_tex_coord: [u32; 2],
    pub normal_tex_coord: [u32; 2],
    pub occlusion_tex: [u32; 2],
    pub emissive_tex: [u32; 2],
}

/// The name of a topology.
pub open spec fn topology_word(topology: Topology) -> Seq<char> {
    match topology {
        Topology::PointList => "PointList"@,
        Topology::LineList => "LineList"@,
        Topology::LineStrip => "LineStrip"@,
        Topology::TriangleList => "TriangleList"@,
        Topology::TriangleStrip => "TriangleStrip"@,
    }
}

fn topology_name(topology: Topology) -> (name: &'static str)
    ensures
        name@ == topology_word(topology),
{
    match topology {
        Topology::PointList => "PointList",
        Topology::LineList => "LineList",
        Topology::LineStrip => "LineStrip",
        Topology::TriangleList => "TriangleList",
        Topology::TriangleStrip => "TriangleStrip",
    }
}

/// An element of a list that may be absent or too short.
pub open spec fn at_or<T>(list: Option<Vec<T>>, i: int, default: T) -> T {
    match list {
        Some(values) => if 0 <= i < values@.len() {
            values@[i]
        } else {
            default
        },
        None => default,
    }
}

fn get_or<T: Copy>(list: &Option<Vec<T>>, i: usize, default: T) -> (value: T)
    ensures
        value == at_or(*list, i as int, default),
{
    match list {
        Some(values) => if i < values.len() {
            values[i]
        } else {
            default
        },
        None => default,
    }
}

/// Whether a corner is the `i`-th of a mesh: what is absent is neutral, and the only
/// coordinates on textures serve for all of them.
pub open spec fn is_vertex_of(vertex: Vertex, mesh: MeshSource, i: int) -> bool {
    let uv = vertex.base_color_tex_coord;
    &&& vertex.position == mesh.positions->0@[i]
    &&& attribute_is(vertex.normal@, mesh.normals, i, seq![0u32, 0, ONE])
    &&& attribute_is(vertex.tangent@, mesh.tangents, i, seq![0u32, 0, 0, 0])
    &&& attribute_is(uv@, mesh.uvs, i, seq![0u32, 0])
    &&& vertex.metallic_roughness_tex_coord == uv
    &&& vertex.normal_tex_coord == uv
    &&& vertex.occlusion_tex == uv
    &&& vertex.emissive_tex == uv
}

/// Whether an attribute is the one at a place, or the neutral one where there is none.
pub open spec fn attribute_is<const N: usize>(
    value: Seq<u32>,
    list: Option<Vec<[u32; N]>>,
    i: int,
    neutral: Seq<u32>,
) -> bool {
    match list {
        Some(values) if 0 <= i < values@.len() => value == values@[i]@,
        _ => value == neutral,
    }
}

/// The indices of a mesh with some corners; one without indices takes its corners in
/// order.
pub open spec fn indices_of(indices: Option<MeshIndices>, corners: nat) -> Seq<u32> {
    match indices {
        Some(MeshIndices::U32(list)) => list@,
        Some(MeshIndices::U16(list)) => list@.map_values(|i: u16| i as u32),
        None => Seq::new((corners as u32) as nat, |i: int| i as u32),
    }
}

/// What keeps a mesh from being converted, if anything does.
pub open spec fn conversion_complaint(mesh: MeshSource) -> Option<Seq<char>> {
    match mesh.positions {
        _ if mesh.topology != Topology::TriangleList => Some(
            "unsupported topology "@ + topology_word(mesh.topology) + " (need TriangleList)"@,
        ),
        None => Some("missing or non-Float32x3 POSITION attribute"@),
        Some(positions) => {
            let count = indices_of(mesh.indices, positions@.len()).len();
            if count % 3 != 0 {
                Some("index count "@ + decimal(count) + " is not a multiple of 3"@)
            } else {
                None
            }
        },
    }
}

fn collect_indices(indices: &Option<MeshIndices>, corners: usize) -> (list: Vec<u32>)
    ensures
        list@ == indices_of(*indices, corners as nat),
{
    let mut list: Vec<u32> = Vec::new();
    match indices {
        Some(MeshIndices::U32(given)) => {
            for i in 0..given.len()
                invariant
                    list@ == given@.take(i as int),
            {
                list.push(given[i]);
                assert(list@ =~= given@.take(i + 1));
            }
            assert(given@.take(given@.len() as int) =~= given@);
        },
        Some(MeshIndices::U16(given)) => {
            for i in 0..given.len()
                invariant
                    list@.len() == i,
                    forall|j: int| 0 <= j < i ==> #[trigger] list@[j] == given@[j] as u32,
            {
                list.push(given[i] as u32);
            }
            assert(list@ =~= given@.map_values(|i: u16| i as u32));
        },
        None => {
            let end: u32 = #[verifier::truncate] (corners as u32);
            for i in 0..end
                invariant
                    list@.len() == i,
                    forall|j: int| 0 <= j < i ==> #[trigger] list@[j] == j as u32,
            {
                list.push(i);
            }
            assert(list@ =~= Seq::new((corners as u32) as nat, |i: int| i as u32));
        },
    }
    list
}

/// Converts a mesh for the renderer. It has to be a list of triangles with positions;
/// what else is missing is filled in.
pub fn convert_mesh(mesh: &MeshSource) -> (r: Result<(Vec<Vertex>, Vec<u32>), String>)
    ensures
        match r {
            Ok((vertices, indices)) => {
                &&& conversion_complaint(*mesh) is None
                &&& mesh.positions matches Some(positions)
                &&& vertices@.len() == positions@.len()
                &&& forall|i: int|
                    0 <= i < vertices@.len() ==> is_vertex_of(#[trigger] vertices@[i], *mesh, i)
                &&& indices@ == indices_of(mesh.indices, positions@.len())
            },
            Err(text) => conversion_complaint(*mesh) == Some(text@),
        },
{
    if mesh.topology != Topology::TriangleList {
        let mut text = String::from_str("unsupported topology ");
        text.append(topology_name(mesh.topology));
        text.append(" (need TriangleList)");
        return Err(text);
    }
    let positions = match &mesh.positions {
        Some(positions) => positions,
        None => {
            return Err(String::from_str("missing or non-Float32x3 POSITION attribute"));
        },
    };
    let mut vertices: Vec<Vertex> = Vec::new();
    for i in 0..positions.len()
        invariant
            mesh.positions == Some(*positions),
            vertices@.len() == i,
            forall|j: int| 0 <= j < i ==> is_vertex_of(#[trigger] vertices@[j], *mesh, j),
    {
        let up: [u32; 3] = [0, 0, ONE];
        let straight: [u32; 4] = [0, 0, 0, 0];
        let origin: [u32; 2] = [0, 0];
        proof {
            assert(up@ =~= seq![0u32, 0, ONE]);
            assert(straight@ =~= seq![0u32, 0, 0, 0]);
            assert(origin@ =~= seq![0u32, 0]);
        }
        let uv = get_or(&mesh.uvs, i, origin);
        vertices.push(
            Vertex {
                position: positions[i],
                normal: get_or(&mesh.normals, i, up),
                tangent: get_or(&mesh.tangents, i, straight),
                base_color_tex_coord: uv,
                metallic_roughness_tex_coord: uv,
                normal_tex_coord: uv,
                occlusion_tex: uv,
                emissive_tex: uv,
            },
        );
    }
    let indices = collect_indices(&mesh.indices, positions.len());
    if indices.len() % 3 != 0 {
        let mut text = String::from_str("index count ");
        push_decimal(&mut text, indices.len() as u64);
        text.append(" is not a multiple of 3");
        return Err(text);
    }
    Ok((vertices, indices))
}

// ---------------------------------------------------------------------------
// Keys
// ---------------------------------------------------------------------------

/// The number that an asset of the renderer's own goes by among the engine's assets, 128
/// bits wide: the group above the index.
pub open spec fn uuid_of(key: ResourceKey) -> int {
    key.group * 0x1_0000_0000_0000_0000 + key.index
}

/// The number that an asset of the renderer's own goes by among the engine's assets.
pub fn asset_uuid(key: ResourceKey) -> (uuid: u128)
    ensures
        uuid == uuid_of(key),
{
    key.group as u128 * 0x1_0000_0000_0000_0000 + key.index as u128
}

/// Different assets go by different numbers.
pub proof fn law_asset_uuids_differ(a: ResourceKey, b: ResourceKey)
    requires
        uuid_of(a) == uuid_of(b),
    ensures
        a == b,
{
}

// ---------------------------------------------------------------------------
// Bookkeeping
// ---------------------------------------------------------------------------

/// A mesh that was converted and waits to be uploaded.
#[derive(Debug)]
pub struct PendingMesh {
    pub id: u64,
    pub vertices: Vec<Vertex>,
    pub indices: Vec<u32>,
    pub material: Material,
}

/// The meshes that entities refer to, and how far each has come.
#[derive(Debug)]
pub struct ExtractedMeshAssets {
    /// Converted, and waiting to be uploaded.
    pub pending: Vec<PendingMesh>,
    /// Uploaded.
    pub loaded: IdSet,
    /// Referred to in this frame.
    pub referenced: IdSet,
    /// Not to be tried again while somebody refers to it.
    pub failed: IdSet,
}

/// Whether a mesh waits to be uploaded.
pub open spec fn is_queued(pending: Seq<PendingMesh>, id: u64) -> bool {
    exists|i: int| 0 <= i < pending.len() && (#[trigger] pending[i]).id == id
}

impl ExtractedMeshAssets {
    /// The sets hold nothing twice, no mesh is both uploaded and waiting, and none waits
    /// twice.
    pub open spec fn wf(self) -> bool {
        &&& self.loaded.wf()
        &&& self.referenced.wf()
        &&& self.failed.wf()
        &&& forall|i: int, j: int|
            0 <= i < j < self.pending@.len() ==> (#[trigger] self.pending@[i]).id != (
            #[trigger] self.pending@[j]).id
        &&& forall|i: int|
            0 <= i < self.pending@.len() ==> !self.loaded@.contains(
                (#[trigger] self.pending@[i]).id,
            )
    }

    /// Whether a mesh has still to be converted.
    pub open spec fn needs(self, id: u64) -> bool {
        !self.loaded@.contains(id) && !self.failed@.contains(id) && !is_queued(self.pending@, id)
    }

    /// No meshes.
    pub fn new() -> (assets: Self)
        ensures
            assets.wf(),
            assets.pending@.len() == 0,
            assets.loaded@ == Set::<u64>::empty(),
            assets.referenced@ == Set::<u64>::empty(),
            assets.failed@ == Set::<u64>::empty(),
    {
        ExtractedMeshAssets {
            pending: Vec::new(),
            loaded: IdSet::new(),
            referenced: IdSet::new(),
            failed: IdSet::new(),
        }
    }

    /// Starts a frame: nothing is referred to yet.
    pub fn begin_extraction(&mut self)
        requires
            old(self).wf(),
        ensures
            final(self).wf(),
            final(self).referenced@ == Set::<u64>::empty(),
            *final(self) == (ExtractedMeshAssets {
                referenced: final(self).referenced,
                ..*old(self)
            }),
    {
        self.referenced = IdSet::new();
    }

    /// Notes that an entity refers to a mesh. Says whether the mesh has still to be
    /// converted.
    pub fn reference(&mut self, id: u64) -> (needed: bool)
        requires
            old(self).wf(),
        ensures
            final(self).wf(),
            needed == old(self).needs(id),
            final(self).referenced@ == old(self).referenced@.insert(id),
            *final(self) == (ExtractedMeshAssets {
                referenced: final(self).referenced,
                ..*old(self)
            }),
    {
        self.referenced.insert(id);
        let mut queued = false;
        for i in 0..self.pending.len()
            invariant
                queued == exists|j: int| 0 <= j < i && (#[trigger] self.pending@[j]).id == id,
        {
            if self.pending[i].id == id {
                queued = true;
            }
        }
        !self.loaded.contains(id) && !self.failed.contains(id) && !queued
    }

    /// Converts a mesh that is there and has to be converted: it waits to be uploaded
    /// then, or counts as failed. Either way it is not converted again, so that the first
    /// material that comes with a mesh is the one it keeps. A material that is not given
    /// is the default one.
    pub fn convert(
        &mut self,
        id: u64,
        mesh: &MeshSource,
        material: Option<SunrayMaterial>,
    ) -> (failure: Option<String>)
        requires
            old(self).wf(),
            old(self).needs(id),
        ensures
            final(self).wf(),
            !final(self).needs(id),
            match failure {
                Some(text) => {
                    &&& conversion_complaint(*mesh) == Some(text@)
                    &&& final(self).failed@ == old(self).failed@.insert(id)
                    &&& *final(self) == (ExtractedMeshAssets {
                        failed: final(self).failed,
                        ..*old(self)
                    })
                },
                None => {
                    &&& conversion_complaint(*mesh) is None
                    &&& *final(self) == (ExtractedMeshAssets {
                        pending: final(self).pending,
                        ..*old(self)
                    })
                    &&& final(self).pending@.len() == old(self).pending@.len() + 1
                    &&& final(self).pending@.drop_last() == old(self).pending@
                    &&& ({
                        let added = final(self).pending@.last();
                        &&& added.id == id
                        &&& added.vertices@.len() == mesh.positions->0@.len()
                        &&& forall|i: int|
                            0 <= i < added.vertices@.len() ==> is_vertex_of(
                                #[trigger] added.vertices@[i],
                                *mesh,
                                i,
                            )
                        &&& added.indices@ == indices_of(
                            mesh.indices,
                            mesh.positions->0@.len(),
                        )
                        &&& material matches Some(given) ==> added.material
                            == given.gltf_material()
                        &&& material is None ==> is_default(factors_of(added.material))
                        &&& added.material == factors_of(added.material).gltf_material()
                    })
                },
            },
    {
        match convert_mesh(mesh) {
            Ok((vertices, indices)) => {
                let factors = match material {
                    Some(given) => given,
                    None => SunrayMaterial::default(),
                };
                let material = factors.to_gltf();
                proof {
                    assert(factors_of(material) == factors);
                }
                self.pending.push(PendingMesh { id, vertices, indices, material });
                proof {
                    assert(self.pending@.drop_last() =~= old(self).pending@);
                    assert forall|i: int, j: int| 0 <= i < j < self.pending@.len() implies (
                    #[trigger] self.pending@[i]).id != (#[trigger] self.pending@[j]).id by {
                        assert(old(self).pending@[i].id == self.pending@[i].id);
                    }
                }
                None
            },
            Err(text) => {
                self.failed.insert(id);
                Some(text)
            },
        }
    }

    /// Ends a frame: meshes that failed and that nobody refers to get another attempt.
    pub fn end_extraction(&mut self)
        requires
            old(self).wf(),
        ensures
            final(self).wf(),
            final(self).failed@ == old(self).failed@.intersect(old(self).referenced@),
            *final(self) == (ExtractedMeshAssets { failed: final(self).failed, ..*old(self) }),
    {
        self.failed.retain(&self.referenced);
    }

    /// Takes the mesh that has waited longest, if any waits.
    pub fn next_pending(&mut self) -> (mesh: Option<PendingMesh>)
        requires
            old(self).wf(),
        ensures
            final(self).wf(),
            match mesh {
                Some(first) => {
                    &&& old(self).pending@.len() > 0
                    &&& first == old(self).pending@[0]
                    &&& final(self).pending@ == old(self).pending@.skip(1)
                    &&& *final(self) == (ExtractedMeshAssets {
                        pending: final(self).pending,
                        ..*old(self)
                    })
                },
                None => old(self).pending@.len() == 0 && *final(self) == *old(self),
            },
    {
        if self.pending.len() == 0 {
            return None;
        }
        let first = self.pending.remove(0);
        proof {
            assert(self.pending@ =~= old(self).pending@.skip(1));
            assert forall|i: int, j: int| 0 <= i < j < self.pending@.len() implies (
            #[trigger] self.pending@[i]).id != (#[trigger] self.pending@[j]).id by {
                assert(self.pending@[i] == old(self).pending@[i + 1]);
                assert(self.pending@[j] == old(self).pending@[j + 1]);
            }
            assert forall|i: int| 0 <= i < self.pending@.len() implies !self.loaded@.contains(
                (#[trigger] self.pending@[i]).id,
            ) by {
                assert(self.pending@[i] == old(self).pending@[i + 1]);
            }
        }
        Some(first)
    }

    /// Notes how the upload of a mesh went.
    pub fn note_upload(&mut self, id: u64, succeeded: bool)
        requires
            old(self).wf(),
            !is_queued(old(self).pending@, id),
        ensures
            final(self).wf(),
            if succeeded {
                &&& final(self).loaded@ == old(self).loaded@.insert(id)
                &&& *final(self) == (ExtractedMeshAssets {
                    loaded: final(self).loaded,
                    ..*old(self)
                })
            } else {
                &&& final(self).failed@ == old(self).failed@.insert(id)
                &&& *final(self) == (ExtractedMeshAssets {
                    failed: final(self).failed,
                    ..*old(self)
                })
            },
    {
        if succeeded {
            self.loaded.insert(id);
        } else {
            self.failed.insert(id);
        }
    }

    /// The meshes that are uploaded and that nobody refers to, each once.
    pub fn orphans(&self) -> (ids: Vec<u64>)
        requires
            self.wf(),
        ensures
            ids@.no_duplicates(),
            ids@.to_set() == self.loaded@.difference(self.referenced@),
    {
        self.loaded.difference(&self.referenced)
    }

    /// Notes that a mesh was let go of.
    pub fn note_unload(&mut self, id: u64)
        requires
            old(self).wf(),
        ensures
            final(self).wf(),
            final(self).loaded@ == old(self).loaded@.remove(id),
            *final(self) == (ExtractedMeshAssets { loaded: final(self).loaded, ..*old(self) }),
    {
        self.loaded.remove(id);
    }
}

/// The factors that a material was made of.
pub open spec fn factors_of(material: Material) -> SunrayMaterial {
    SunrayMaterial {
        base_color: material.base_color_factor,
        metallic: material.metallic_factor,
        roughness: material.roughness_factor,
        emissive: material.emissive_factor,
        emissive_strength: material.emissive_strength,
        ior: material.ior,
        transmission: material.transmission_factor,
    }
}

/// A mesh that failed is not converted again while somebody refers to it, and is once
/// nobody does, unless it is uploaded or waiting.
pub proof fn law_failures_are_retried_once_forgotten(
    before: ExtractedMeshAssets,
    after: ExtractedMeshAssets,
    id: u64,
)
    requires
        before.failed@.contains(id),
        after.failed@ == before.failed@.intersect(before.referenced@),
        after.loaded == before.loaded,
        after.pending == before.pending,
    ensures
        before.referenced@.contains(id) ==> !after.needs(id),
        !before.referenced@.contains(id) ==> (after.needs(id) <==> !before.loaded@.contains(id)
            && !is_queued(before.pending@, id)),
{
}

} // verus!
