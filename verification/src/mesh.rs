//! The parts of a mesh that its optimization reads and rewrites: the primitive topology, the
//! vertex attributes as raw bytes per vertex, and the index buffer.
use vstd::arithmetic::div_mod::lemma_fundamental_div_mod;
use vstd::prelude::*;

verus! {

/// How the vertices of a mesh are assembled into primitives.
#[derive(Clone, Copy, Debug, PartialEq, Eq, Structural)]
pub enum PrimitiveTopology {
    /// Each vertex is a point.
    PointList,
    /// Each pair of vertices is a line.
    LineList,
    /// Each vertex after the first one makes a line with the previous one.
    LineStrip,
    /// Each three vertices are a triangle.
    TriangleList,
    /// Each vertex after the first two makes a triangle with the two previous ones.
    TriangleStrip,
}

impl PrimitiveTopology {
    pub open spec fn spec_is_strip(self) -> bool {
        self == PrimitiveTopology::LineStrip || self == PrimitiveTopology::TriangleStrip
    }

    /// Whether the topology is a strip, where primitive restart values apply.
    #[verifier::when_used_as_spec(spec_is_strip)]
    pub fn is_strip(self) -> (strip: bool)
        ensures
            strip == self.spec_is_strip(),
    {
        match self {
            PrimitiveTopology::LineStrip | PrimitiveTopology::TriangleStrip => true,
            _ => false,
        }
    }
}

/// The index buffer of a mesh, in 16 or 32 bits.
#[derive(Clone, Debug, PartialEq, Eq)]
pub enum Indices {
    U16(Vec<u16>),
    U32(Vec<u32>),
}

impl Indices {
    /// The indices, whatever their format.
    pub open spec fn values(&self) -> Seq<u32> {
        match self {
            Indices::U16(narrow) => narrow@.map_values(|index: u16| index as u32),
            Indices::U32(wide) => wide@,
        }
    }

    pub open spec fn is_u16(&self) -> bool {
        self is U16
    }

    /// The number of indices.
    pub fn len(&self) -> (len: usize)
        ensures
            len == self.values().len(),
    {
        match self {
            Indices::U16(narrow) => narrow.len(),
            Indices::U32(wide) => wide.len(),
        }
    }

    /// The index at `position`.
    pub fn get(&self, position: usize) -> (index: u32)
        requires
            position < self.values().len(),
        ensures
            index == self.values()[position as int],
    {
        match self {
            Indices::U16(narrow) => narrow[position] as u32,
            Indices::U32(wide) => wide[position],
        }
    }

    /// The indices as 32-bit values.
    pub fn to_u32(&self) -> (wide: Vec<u32>)
        ensures
            wide@ == self.values(),
    {
        match self {
            Indices::U32(wide) => wide.clone(),
            Indices::U16(narrow) => {
                let mut wide: Vec<u32> = Vec::new();
                let mut i: usize = 0;
                while i < narrow.len()
                    invariant
                        i <= narrow.len(),
                        wide@ == narrow@.take(i as int).map_values(|index: u16| index as u32),
                    decreases narrow.len() - i,
                {
                    wide.push(narrow[i] as u32);
                    proof {
                        assert(narrow@.take(i + 1) =~= narrow@.take(i as int).push(narrow@[i as int]));
                    }
                    i = i + 1;
                }
                assert(narrow@.take(narrow.len() as int) =~= narrow@);
                wide
            },
        }
    }

    /// Replaces the indices with `wide`, keeping their format. Values that don't fit in 16 bits
    /// can only be stored in 32-bit indices.
    pub fn set_from_u32(&mut self, wide: Vec<u32>)
        requires
            old(self).is_u16() ==> forall|i: int| 0 <= i < wide.len() ==> #[trigger] wide@[i] <= u16::MAX,
        ensures
            final(self).is_u16() == old(self).is_u16(),
            final(self).values() == wide@,
    {
        match self {
            Indices::U32(_) => {
                *self = Indices::U32(wide);
            },
            Indices::U16(_) => {
                let mut narrow: Vec<u16> = Vec::new();
                let mut i: usize = 0;
                while i < wide.len()
                    invariant
                        i <= wide.len(),
                        forall|j: int| 0 <= j < wide.len() ==> #[trigger] wide@[j] <= u16::MAX,
                        narrow.len() == i,
                        forall|j: int| 0 <= j < i ==> #[trigger] narrow@[j] as u32 == wide@[j],
                    decreases wide.len() - i,
                {
                    narrow.push(wide[i] as u16);
                    i = i + 1;
                }
                let ghost values = narrow@.map_values(|index: u16| index as u32);
                assert(values =~= wide@);
                *self = Indices::U16(narrow);
            },
        }
    }
}

/// The values of one vertex attribute (a position, a normal, a UV...), as the raw bytes of each
/// vertex.
#[derive(Clone, Debug, PartialEq, Eq)]
pub struct MeshAttribute {
    /// Identifies the attribute.
    pub id: u64,
    /// The size of the value of one vertex, in bytes.
    pub item_size: usize,
    /// The value of each vertex.
    pub values: Vec<Vec<u8>>,
}

/// The error returned when the data of a mesh can't be accessed.
#[derive(Clone, Copy, Debug, PartialEq, Eq, Structural)]
pub enum MeshAccessError {
    /// The mesh data has been extracted to the `RenderWorld`.
    ExtractedToRenderWorld,
}

/// A mesh: its topology, its vertex attributes, its (optional) indices and its (optional) morph
/// targets.
#[derive(Clone, Debug, PartialEq, Eq)]
pub struct Mesh {
    pub primitive_topology: PrimitiveTopology,
    pub attributes: Vec<MeshAttribute>,
    pub indices: Option<Indices>,
    /// The displacements of the morph targets, as the raw bytes of one value per vertex for each
    /// target: all the vertices of the first target, then all those of the second one, and so on.
    pub morph_targets: Option<Vec<Vec<u8>>>,
    /// The vertex and index data have been extracted to the `RenderWorld`, and can't be accessed
    /// anymore.
    pub extracted: bool,
}

/// The smallest number of values of the first `n` attributes, or 0 for none.
pub open spec fn min_len(attributes: Seq<MeshAttribute>, n: int) -> nat
    decreases n,
{
    if n <= 0 {
        0
    } else if n == 1 {
        attributes[0].values.len() as nat
    } else {
        let rest = min_len(attributes, n - 1);
        let len = attributes[n - 1].values.len() as nat;
        if len < rest {
            len
        } else {
            rest
        }
    }
}

/// The position of the first attribute with the given id, if any.
pub open spec fn attribute_position(attributes: Seq<MeshAttribute>, id: u64) -> Option<int> {
    attribute_position_from(attributes, id, 0)
}

/// The position of the first attribute with the given id at or after `start`, if any.
pub open spec fn attribute_position_from(attributes: Seq<MeshAttribute>, id: u64, start: int) -> Option<
    int,
>
    decreases attributes.len() - start,
{
    if start < 0 || start >= attributes.len() {
        None
    } else if attributes[start].id == id {
        Some(start)
    } else {
        attribute_position_from(attributes, id, start + 1)
    }
}

/// The sum of the item sizes of the first `n` attributes.
pub open spec fn sum_item_sizes(attributes: Seq<MeshAttribute>, n: int) -> int
    decreases n,
{
    if n <= 0 {
        0
    } else {
        sum_item_sizes(attributes, n - 1) + attributes[n - 1].item_size
    }
}

/// The number of vertices fits in a `usize`.
/// The sum of the item sizes of the first `n` attributes depends on those attributes alone.
proof fn lemma_sum_item_sizes_prefix(first: Seq<MeshAttribute>, second: Seq<MeshAttribute>, n: int)
    requires
        n <= first.len(),
        n <= second.len(),
        forall|a: int| 0 <= a < n ==> #[trigger] first[a].item_size == second[a].item_size,
    ensures
        sum_item_sizes(first, n) == sum_item_sizes(second, n),
    decreases n,
{
    if n > 0 {
        lemma_sum_item_sizes_prefix(first, second, n - 1);
    }
}

/// The size of a vertex adds up the sizes of its attributes: the attributes of two lists put
/// together take the sizes of both lists, and a single attribute takes its own size.
pub proof fn lemma_vertex_size_is_additive(first: Seq<MeshAttribute>, second: Seq<MeshAttribute>)
    ensures
        sum_item_sizes(first + second, (first.len() + second.len()) as int) == sum_item_sizes(
            first,
            first.len() as int,
        ) + sum_item_sizes(second, second.len() as int),
        second.len() == 1 ==> sum_item_sizes(second, 1) == second[0].item_size,
    decreases second.len(),
{
    if second.len() > 0 {
        let rest = second.drop_last();
        lemma_vertex_size_is_additive(first, rest);
        lemma_sum_item_sizes_prefix(first + second, first + rest, (first.len() + rest.len()) as int);
        lemma_sum_item_sizes_prefix(second, rest, rest.len() as int);
        assert((first + second)[(first.len() + rest.len()) as int] == second[rest.len() as int]);
    } else {
        assert(first + second =~= first);
    }
}

/// Replacing one attribute of a list changes the size of a vertex by the difference of their
/// item sizes.
proof fn lemma_vertex_size_update(attributes: Seq<MeshAttribute>, position: int, attribute: MeshAttribute, n: int)
    requires
        0 <= position < n <= attributes.len(),
    ensures
        sum_item_sizes(attributes.update(position, attribute), n) == sum_item_sizes(attributes, n)
            - attributes[position].item_size + attribute.item_size,
    decreases n,
{
    if n - 1 > position {
        lemma_vertex_size_update(attributes, position, attribute, n - 1);
    } else {
        lemma_sum_item_sizes_prefix(attributes.update(position, attribute), attributes, n - 1);
    }
}

/// Inserting an attribute into a mesh, as [`Mesh::with_inserted_attribute`] does, makes its
/// vertices larger by the size of the attribute's values, less the size of the values of the
/// attribute it replaces, if any.
pub proof fn lemma_inserted_attribute_vertex_size(mesh: Mesh, attribute: MeshAttribute, after: Mesh)
    requires
        after.attributes@ == match attribute_position(mesh.attributes@, attribute.id) {
            Some(position) => mesh.attributes@.update(position, attribute),
            None => mesh.attributes@.push(attribute),
        },
    ensures
        after.vertex_size() == mesh.vertex_size() + attribute.item_size - match attribute_position(
            mesh.attributes@,
            attribute.id,
        ) {
            Some(position) => mesh.attributes@[position].item_size as int,
            None => 0int,
        },
{
    match attribute_position(mesh.attributes@, attribute.id) {
        Some(position) => {
            lemma_attribute_position_bound(mesh.attributes@, attribute.id, 0);
            lemma_vertex_size_update(mesh.attributes@, position, attribute, mesh.attributes.len() as int);
        },
        None => {
            lemma_vertex_size_is_additive(mesh.attributes@, seq![attribute]);
            assert(mesh.attributes@ + seq![attribute] =~= mesh.attributes@.push(attribute));
        },
    }
}

/// A position found by `attribute_position_from` is that of an attribute of the list.
proof fn lemma_attribute_position_bound(attributes: Seq<MeshAttribute>, id: u64, start: int)
    requires
        0 <= start,
    ensures
        attribute_position_from(attributes, id, start) matches Some(p) ==> start <= p
            < attributes.len(),
    decreases attributes.len() - start,
{
    if start < attributes.len() {
        lemma_attribute_position_bound(attributes, id, start + 1);
    }
}

pub proof fn lemma_min_len_bound(attributes: Seq<MeshAttribute>, n: int)
    ensures
        min_len(attributes, n) <= usize::MAX,
    decreases n,
{
    if n > 1 {
        lemma_min_len_bound(attributes, n - 1);
    }
}

impl Mesh {
    /// The number of vertices: the number of values of the attribute with the fewest of them, or 0
    /// without attributes.
    pub open spec fn vertex_count(&self) -> nat {
        min_len(self.attributes@, self.attributes.len() as int)
    }

    /// The morph targets of the mesh, if it has any, hold one value per vertex for each target.
    pub open spec fn morph_targets_fit_vertices(&self) -> bool {
        match self.morph_targets {
            Some(morph) => self.vertex_count() > 0 ==> morph_targets_fit(morph@, self.vertex_count()),
            None => true,
        }
    }

    /// The size of the attributes of one vertex, in bytes.
    pub open spec fn vertex_size(&self) -> int {
        sum_item_sizes(self.attributes@, self.attributes.len() as int)
    }

    /// A mesh with the given topology, without attributes or indices.
    pub fn new(primitive_topology: PrimitiveTopology) -> (mesh: Self)
        ensures
            mesh.primitive_topology == primitive_topology,
            mesh.attributes@ == Seq::<MeshAttribute>::empty(),
            mesh.indices is None,
            mesh.morph_targets is None,
            !mesh.extracted,
    {
        Mesh {
            primitive_topology,
            attributes: Vec::new(),
            indices: None,
            morph_targets: None,
            extracted: false,
        }
    }

    /// Returns the mesh with `attribute` added, replacing the attribute with the same id if any.
    pub fn with_inserted_attribute(self, attribute: MeshAttribute) -> (mesh: Self)
        ensures
            mesh.primitive_topology == self.primitive_topology,
            mesh.indices == self.indices,
            mesh.morph_targets == self.morph_targets,
            mesh.extracted == self.extracted,
            mesh.attributes@ == match attribute_position(self.attributes@, attribute.id) {
                Some(position) => self.attributes@.update(position, attribute),
                None => self.attributes@.push(attribute),
            },
    {
        let mut mesh = self;
        let mut i: usize = 0;
        while i < mesh.attributes.len()
            invariant
                i <= mesh.attributes.len(),
                mesh.attributes@ == self.attributes@,
                mesh.primitive_topology == self.primitive_topology,
                mesh.indices == self.indices,
                mesh.morph_targets == self.morph_targets,
                mesh.extracted == self.extracted,
                attribute_position(self.attributes@, attribute.id) == attribute_position_from(
                    self.attributes@,
                    attribute.id,
                    i as int,
                ),
            decreases mesh.attributes.len() - i,
        {
            if mesh.attributes[i].id == attribute.id {
                mesh.attributes.set(i, attribute);
                return mesh;
            }
            i = i + 1;
        }
        mesh.attributes.push(attribute);
        mesh
    }

    /// Returns the mesh with its indices replaced by `indices`.
    pub fn with_inserted_indices(self, indices: Indices) -> (mesh: Self)
        ensures
            mesh.primitive_topology == self.primitive_topology,
            mesh.attributes == self.attributes,
            mesh.morph_targets == self.morph_targets,
            mesh.extracted == self.extracted,
            mesh.indices == Some(indices),
    {
        let mut mesh = self;
        mesh.indices = Some(indices);
        mesh
    }

    /// Sets the morph targets of the mesh: one value per vertex for each target, target after
    /// target.
    pub fn set_morph_targets(&mut self, morph_targets: Vec<Vec<u8>>)
        ensures
            final(self).primitive_topology == old(self).primitive_topology,
            final(self).attributes == old(self).attributes,
            final(self).indices == old(self).indices,
            final(self).extracted == old(self).extracted,
            final(self).morph_targets == Some(morph_targets),
    {
        self.morph_targets = Some(morph_targets);
    }

    /// Whether the morph targets of the mesh, if it has any, hold one value per vertex for each
    /// target.
    pub fn check_morph_targets(&self) -> (fit: bool)
        requires
            !self.extracted,
        ensures
            fit == self.morph_targets_fit_vertices(),
    {
        let vertex_count = match self.try_count_vertices() {
            Ok(count) => count,
            Err(_) => {
                return false;
            },
        };
        proof {
            lemma_min_len_bound(self.attributes@, self.attributes.len() as int);
        }
        match &self.morph_targets {
            Some(morph) => vertex_count == 0 || morph.len() % vertex_count == 0,
            None => true,
        }
    }

    /// The morph targets of the mesh, if it has any.
    pub fn morph_targets(&self) -> (morph_targets: Option<&Vec<Vec<u8>>>)
        ensures
            match morph_targets {
                Some(m) => self.morph_targets == Some(*m),
                None => self.morph_targets is None,
            },
    {
        match &self.morph_targets {
            Some(m) => Some(m),
            None => None,
        }
    }

    /// The primitive topology of the mesh.
    pub fn primitive_topology(&self) -> (topology: PrimitiveTopology)
        ensures
            topology == self.primitive_topology,
    {
        self.primitive_topology
    }

    /// Moves the vertex and index data out of the mesh, as when it is extracted to the
    /// `RenderWorld`. The mesh data can't be accessed anymore afterwards.
    pub fn take_gpu_data(&mut self) -> (data: Result<Mesh, MeshAccessError>)
        ensures
            old(self).extracted ==> data == Err::<Mesh, MeshAccessError>(
                MeshAccessError::ExtractedToRenderWorld,
            ) && *final(self) == *old(self),
            !old(self).extracted ==> data == Ok::<Mesh, MeshAccessError>(*old(self)),
            !old(self).extracted ==> final(self).extracted,
            !old(self).extracted ==> final(self).attributes@ == Seq::<MeshAttribute>::empty(),
            !old(self).extracted ==> final(self).indices is None,
            !old(self).extracted ==> final(self).morph_targets is None,
            final(self).primitive_topology == old(self).primitive_topology,
    {
        if self.extracted {
            return Err(MeshAccessError::ExtractedToRenderWorld);
        }
        let mut data = Mesh {
            primitive_topology: self.primitive_topology,
            attributes: Vec::new(),
            indices: None,
            morph_targets: None,
            extracted: true,
        };
        std::mem::swap(self, &mut data);
        Ok(data)
    }

    /// Like counting the vertices, but returns an error instead of panicking if the mesh data has
    /// been extracted to the `RenderWorld`.
    pub fn try_count_vertices(&self) -> (count: Result<usize, MeshAccessError>)
        ensures
            self.extracted ==> count == Err::<usize, MeshAccessError>(
                MeshAccessError::ExtractedToRenderWorld,
            ),
            !self.extracted ==> count == Ok::<usize, MeshAccessError>(self.vertex_count() as usize),
    {
        if self.extracted {
            return Err(MeshAccessError::ExtractedToRenderWorld);
        }
        let mut count: usize = 0;
        let mut i: usize = 0;
        while i < self.attributes.len()
            invariant
                i <= self.attributes.len(),
                count == min_len(self.attributes@, i as int),
            decreases self.attributes.len() - i,
        {
            let len = self.attributes[i].values.len();
            if i == 0 || len < count {
                count = len;
            }
            i = i + 1;
        }
        Ok(count)
    }

    /// The size of the attributes of one vertex, in bytes.
    pub fn get_vertex_size(&self) -> (size: usize)
        requires
            self.vertex_size() <= usize::MAX,
        ensures
            size == self.vertex_size(),
    {
        let mut size: usize = 0;
        let mut i: usize = 0;
        while i < self.attributes.len()
            invariant
                i <= self.attributes.len(),
                size == sum_item_sizes(self.attributes@, i as int),
                sum_item_sizes(self.attributes@, self.attributes.len() as int) <= usize::MAX,
            decreases self.attributes.len() - i,
        {
            proof {
                lemma_sum_item_sizes_monotone(self.attributes@, i + 1, self.attributes.len() as int);
            }
            size = size + self.attributes[i].item_size;
            i = i + 1;
        }
        size
    }
}

proof fn lemma_sum_item_sizes_monotone(attributes: Seq<MeshAttribute>, a: int, b: int)
    requires
        0 <= a <= b,
    ensures
        sum_item_sizes(attributes, a) <= sum_item_sizes(attributes, b),
    decreases b,
{
    if a < b {
        lemma_sum_item_sizes_monotone(attributes, a, b - 1);
    }
}

/// `after` holds the values of `before` at the positions listed in `new_to_old`, in that order.
pub open spec fn is_gathered(before: MeshAttribute, after: MeshAttribute, new_to_old: Seq<u32>) -> bool {
    &&& after.id == before.id
    &&& after.item_size == before.item_size
    &&& after.values.len() == new_to_old.len()
    &&& forall|i: int|
        0 <= i < new_to_old.len() ==> #[trigger] after.values@[i]@ == before.values@[new_to_old[i] as int]@
}

/// Copies the values of `attribute` at the positions listed in `new_to_old`.
fn gather_attribute(attribute: &MeshAttribute, new_to_old: &Vec<u32>) -> (gathered: MeshAttribute)
    requires
        forall|i: int| 0 <= i < new_to_old.len() ==> #[trigger] new_to_old@[i] < attribute.values.len(),
    ensures
        is_gathered(*attribute, gathered, new_to_old@),
{
    let mut values: Vec<Vec<u8>> = Vec::new();
    let mut i: usize = 0;
    while i < new_to_old.len()
        invariant
            i <= new_to_old.len(),
            forall|j: int| 0 <= j < new_to_old.len() ==> #[trigger] new_to_old@[j] < attribute.values.len(),
            values.len() == i,
            forall|j: int| 0 <= j < i ==> #[trigger] values@[j]@ == attribute.values@[new_to_old@[j] as int]@,
        decreases new_to_old.len() - i,
    {
        let value = attribute.values[new_to_old[i] as usize].clone();
        assert(value@ =~= attribute.values@[new_to_old@[i as int] as int]@);
        values.push(value);
        i = i + 1;
    }
    MeshAttribute { id: attribute.id, item_size: attribute.item_size, values }
}

/// The morph targets `morph` hold a whole number of targets of `vertex_count` values each, for at
/// least one vertex.
pub open spec fn morph_targets_fit(morph: Seq<Vec<u8>>, vertex_count: nat) -> bool {
    vertex_count > 0 && (morph.len() as int) % (vertex_count as int) == 0
}

/// The values of the first `targets` morph targets of `morph`, each of `vertex_count` values, at
/// the positions listed in `new_to_old`: target after target, the new vertex `i` of a target
/// being its old vertex `new_to_old[i]`.
pub open spec fn gathered_morph_targets(
    morph: Seq<Vec<u8>>,
    vertex_count: int,
    new_to_old: Seq<u32>,
    targets: int,
) -> Seq<Seq<u8>>
    decreases targets,
{
    if targets <= 0 {
        Seq::empty()
    } else {
        gathered_morph_targets(morph, vertex_count, new_to_old, targets - 1) + Seq::new(
            new_to_old.len(),
            |i: int| morph[(targets - 1) * vertex_count + new_to_old[i]]@,
        )
    }
}

/// `after` holds every morph target of `before`, each of `vertex_count` values, with the values
/// at the positions listed in `new_to_old`.
pub open spec fn is_morph_gathered(
    before: Seq<Vec<u8>>,
    after: Seq<Vec<u8>>,
    vertex_count: int,
    new_to_old: Seq<u32>,
) -> bool {
    after.map_values(|value: Vec<u8>| value@) == gathered_morph_targets(
        before,
        vertex_count,
        new_to_old,
        (before.len() as int) / vertex_count,
    )
}

/// Copies, for each morph target of `morph`, its values at the positions listed in `new_to_old`.
fn gather_morph_targets(morph: &Vec<Vec<u8>>, vertex_count: usize, new_to_old: &Vec<u32>) -> (gathered:
    Vec<Vec<u8>>)
    requires
        morph_targets_fit(morph@, vertex_count as nat),
        all_below_count(new_to_old@, vertex_count as nat),
    ensures
        is_morph_gathered(morph@, gathered@, vertex_count as int, new_to_old@),
{
    let targets = morph.len() / vertex_count;
    proof {
        lemma_fundamental_div_mod(morph.len() as int, vertex_count as int);
        assert(targets * vertex_count == morph.len()) by (nonlinear_arith)
            requires
                morph.len() == vertex_count * (morph.len() as int / vertex_count as int) + (
                morph.len() as int % vertex_count as int),
                morph.len() as int % vertex_count as int == 0,
                targets == morph.len() as int / vertex_count as int,
        ;
    }
    let mut gathered: Vec<Vec<u8>> = Vec::new();
    let mut t: usize = 0;
    while t < targets
        invariant
            t <= targets,
            targets == (morph.len() as int) / (vertex_count as int),
            targets * vertex_count == morph.len(),
            vertex_count > 0,
            all_below_count(new_to_old@, vertex_count as nat),
            gathered@.map_values(|value: Vec<u8>| value@) == gathered_morph_targets(
                morph@,
                vertex_count as int,
                new_to_old@,
                t as int,
            ),
        decreases targets - t,
    {
        assert(t * vertex_count + vertex_count <= morph.len()) by (nonlinear_arith)
            requires
                t + 1 <= targets,
                vertex_count > 0,
                targets * vertex_count == morph.len(),
        ;
        let start = t * vertex_count;
        let ghost before = gathered@;
        let mut i: usize = 0;
        while i < new_to_old.len()
            invariant
                i <= new_to_old.len(),
                start + vertex_count <= morph.len(),
                start == t * vertex_count,
                all_below_count(new_to_old@, vertex_count as nat),
                gathered@.len() == before.len() + i,
                forall|j: int| 0 <= j < before.len() ==> #[trigger] gathered@[j] == before[j],
                forall|j: int|
                    0 <= j < i ==> #[trigger] gathered@[before.len() + j]@ == morph@[t * vertex_count
                        + new_to_old@[j]]@,
            decreases new_to_old.len() - i,
        {
            let value = morph[start + new_to_old[i] as usize].clone();
            assert(value@ =~= morph@[start + new_to_old@[i as int]]@);
            gathered.push(value);
            i = i + 1;
        }
        proof {
            let part = Seq::new(
                new_to_old.len() as nat,
                |j: int| morph@[t * vertex_count + new_to_old@[j]]@,
            );
            assert forall|k: int| 0 <= k < new_to_old.len() implies gathered@[before.len() + k]@
                == part[k] by {
                assert(gathered@[before.len() + k]@ == morph@[t * vertex_count + new_to_old@[k]]@);
            }
            assert(gathered@.map_values(|value: Vec<u8>| value@) =~= before.map_values(
                |value: Vec<u8>| value@,
            ) + part);
        }
        t = t + 1;
    }
    gathered
}

proof fn lemma_min_len_le(attributes: Seq<MeshAttribute>, n: int, a: int)
    requires
        0 <= a < n <= attributes.len(),
    ensures
        min_len(attributes, n) <= attributes[a].values.len(),
    decreases n,
{
    if n > 1 && a < n - 1 {
        lemma_min_len_le(attributes, n - 1, a);
    }
}

impl Mesh {
    /// Replaces the values of every vertex attribute, and of every morph target, with their values
    /// at the positions listed in `new_to_old`: the new vertex `i` is the old vertex
    /// `new_to_old[i]`.
    pub fn try_gather_vertices(&mut self, new_to_old: &Vec<u32>) -> (result: Result<(), MeshAccessError>)
        requires
            all_below_count(new_to_old@, old(self).vertex_count()),
            !old(self).extracted ==> (old(self).morph_targets matches Some(morph) ==> morph_targets_fit(
                morph@,
                old(self).vertex_count(),
            )),
        ensures
            old(self).extracted ==> result == Err::<(), MeshAccessError>(
                MeshAccessError::ExtractedToRenderWorld,
            ) && *final(self) == *old(self),
            !old(self).extracted ==> result is Ok,
            final(self).primitive_topology == old(self).primitive_topology,
            final(self).indices == old(self).indices,
            final(self).extracted == old(self).extracted,
            final(self).attributes.len() == old(self).attributes.len(),
            !old(self).extracted ==> forall|a: int|
                0 <= a < old(self).attributes.len() ==> is_gathered(
                    old(self).attributes@[a],
                    #[trigger] final(self).attributes@[a],
                    new_to_old@,
                ),
            !old(self).extracted ==> match old(self).morph_targets {
                Some(morph) => final(self).morph_targets matches Some(gathered) && is_morph_gathered(
                    morph@,
                    gathered@,
                    old(self).vertex_count() as int,
                    new_to_old@,
                ),
                None => final(self).morph_targets is None,
            },
    {
        if self.extracted {
            return Err(MeshAccessError::ExtractedToRenderWorld);
        }
        let vertex_count = match self.try_count_vertices() {
            Ok(count) => count,
            Err(error) => {
                return Err(error);
            },
        };
        proof {
            lemma_min_len_bound(self.attributes@, self.attributes.len() as int);
        }
        let gathered_morph = match &self.morph_targets {
            Some(morph) => Some(gather_morph_targets(morph, vertex_count, new_to_old)),
            None => None,
        };
        self.morph_targets = gathered_morph;
        let ghost before = self.attributes@;
        let mut attributes: Vec<MeshAttribute> = Vec::new();
        let mut a: usize = 0;
        while a < self.attributes.len()
            invariant
                a <= self.attributes.len(),
                self.attributes@ == before,
                all_below_count(new_to_old@, min_len(before, before.len() as int)),
                attributes.len() == a,
                forall|b: int| 0 <= b < a ==> is_gathered(before[b], #[trigger] attributes@[b], new_to_old@),
            decreases self.attributes.len() - a,
        {
            proof {
                lemma_min_len_le(before, before.len() as int, a as int);
            }
            let gathered = gather_attribute(&self.attributes[a], new_to_old);
            attributes.push(gathered);
            a = a + 1;
        }
        self.attributes = attributes;
        Ok(())
    }
}

/// All the values of `s` are below `bound`.
pub open spec fn all_below_count(s: Seq<u32>, bound: nat) -> bool {
    forall|i: int| 0 <= i < s.len() ==> #[trigger] s[i] < bound
}

} // verus!
