//! Block identities, their texture paths, and the registry that hands out
//! the compact numeric ids that chunks store.
use vstd::prelude::*;
use vstd::string::*;

verus! {

/// A block's name within a namespace, such as `superdupervoxels:dirt`.
#[derive(Debug)]
pub struct NamespacedId {
    pub namespace: String,
    pub name: String,
}

/// The mathematical value of a block name: its namespace and its name.
pub type IdView = (Seq<char>, Seq<char>);

impl View for NamespacedId {
    type V = IdView;

    open spec fn view(&self) -> IdView {
        (self.namespace@, self.name@)
    }
}

impl NamespacedId {
    pub fn new(namespace: &str, name: &str) -> (id: Self)
        ensures
            id@ == (namespace@, name@),
    {
        NamespacedId { namespace: String::from_str(namespace), name: String::from_str(name) }
    }

    /// Whether both names are the same, namespace and name alike.
    pub fn same_as(&self, other: &NamespacedId) -> (b: bool)
        ensures
            b == (self@ == other@),
    {
        self.namespace == other.namespace && self.name == other.name
    }
}

impl Clone for NamespacedId {
    fn clone(&self) -> (c: Self)
        ensures
            c@ == self@,
    {
        NamespacedId { namespace: self.namespace.clone(), name: self.name.clone() }
    }
}

} // verus!

verus! {

/// Where a block's textures come from, as asset paths: one texture for
/// every face, or separate top, bottom and side textures, or none.
#[derive(Debug)]
pub enum BlockTextures {
    All(String),
    Sided { top: String, bottom: String, side: String },
    Untextured,
}

/// Which of a block's textures a face shows.
#[derive(Clone, Copy, Debug, PartialEq, Eq, Structural)]
pub enum FaceSlot {
    Top,
    Bottom,
    Side,
}

impl Clone for BlockTextures {
    fn clone(&self) -> (c: Self)
        ensures
            c == *self,
    {
        match self {
            BlockTextures::All(p) => BlockTextures::All(p.clone()),
            BlockTextures::Sided { top, bottom, side } => BlockTextures::Sided {
                top: top.clone(),
                bottom: bottom.clone(),
                side: side.clone(),
            },
            BlockTextures::Untextured => BlockTextures::Untextured,
        }
    }
}

impl BlockTextures {
    /// The texture paths, in the order in which the atlas takes them:
    /// the single texture, or top, bottom and side.
    pub open spec fn texture_seq(&self) -> Seq<String> {
        match self {
            BlockTextures::All(p) => seq![*p],
            BlockTextures::Sided { top, bottom, side } => seq![*top, *bottom, *side],
            BlockTextures::Untextured => Seq::empty(),
        }
    }

    /// The texture a face of the given kind shows, if the block has any.
    pub open spec fn face_texture_spec(&self, slot: FaceSlot) -> Option<String> {
        match self {
            BlockTextures::All(p) => Some(*p),
            BlockTextures::Sided { top, bottom, side } => match slot {
                FaceSlot::Top => Some(*top),
                FaceSlot::Bottom => Some(*bottom),
                FaceSlot::Side => Some(*side),
            },
            BlockTextures::Untextured => None,
        }
    }

    /// The texture paths, in atlas order.
    pub fn texture_paths(&self) -> (v: Vec<String>)
        ensures
            v@ == self.texture_seq(),
    {
        let mut v: Vec<String> = Vec::new();
        match self {
            BlockTextures::All(p) => {
                v.push(p.clone());
            },
            BlockTextures::Sided { top, bottom, side } => {
                v.push(top.clone());
                v.push(bottom.clone());
                v.push(side.clone());
            },
            BlockTextures::Untextured => {},
        }
        proof {
            assert(v@ =~= self.texture_seq());
        }
        v
    }

    /// The texture that a face of the given kind shows.
    pub fn face_texture(&self, slot: FaceSlot) -> (t: Option<&String>)
        ensures
            match t {
                Some(p) => self.face_texture_spec(slot) == Some(*p),
                None => self.face_texture_spec(slot) is None,
            },
    {
        match self {
            BlockTextures::All(p) => Some(p),
            BlockTextures::Sided { top, bottom, side } => match slot {
                FaceSlot::Top => Some(top),
                FaceSlot::Bottom => Some(bottom),
                FaceSlot::Side => Some(side),
            },
            BlockTextures::Untextured => None,
        }
    }
}

/// Asset directory of a block's textures: `<namespace>/textures/block/<name>`.
pub open spec fn texture_dir_spec(namespace: Seq<char>, name: Seq<char>) -> Seq<char> {
    namespace + "/textures/block/"@ + name
}

fn texture_file(namespace: &str, name: &str, file: &str) -> (p: String)
    ensures
        p@ == texture_dir_spec(namespace@, name@) + file@,
{
    let mut p = String::from_str(namespace);
    p.append("/textures/block/");
    p.append(name);
    p.append(file);
    p
}

/// The two asset paths whose presence decides how a block is textured:
/// first the shared texture `all.png`, then the top texture `top.png`.
pub fn texture_probe_paths(namespace: &str, name: &str) -> (r: (String, String))
    ensures
        r.0@ == texture_dir_spec(namespace@, name@) + "/all.png"@,
        r.1@ == texture_dir_spec(namespace@, name@) + "/top.png"@,
{
    (texture_file(namespace, name, "/all.png"), texture_file(namespace, name, "/top.png"))
}

/// Chooses a block's textures from what exists on disk: the shared
/// texture if `all.png` exists, else separate top, bottom and side
/// textures if `top.png` exists, else none.
pub fn load_block_textures(namespace: &str, name: &str, has_all: bool, has_top: bool) -> (t:
    BlockTextures)
    ensures
        has_all ==> (t matches BlockTextures::All(p) && p@ == texture_dir_spec(namespace@, name@)
            + "/all.png"@),
        !has_all && has_top ==> (t matches BlockTextures::Sided { top, bottom, side } && top@
            == texture_dir_spec(namespace@, name@) + "/top.png"@ && bottom@ == texture_dir_spec(
            namespace@,
            name@,
        ) + "/bottom.png"@ && side@ == texture_dir_spec(namespace@, name@) + "/side.png"@),
        !has_all && !has_top ==> t is Untextured,
{
    if has_all {
        BlockTextures::All(texture_file(namespace, name, "/all.png"))
    } else if has_top {
        BlockTextures::Sided {
            top: texture_file(namespace, name, "/top.png"),
            bottom: texture_file(namespace, name, "/bottom.png"),
            side: texture_file(namespace, name, "/side.png"),
        }
    } else {
        BlockTextures::Untextured
    }
}

} // verus!

verus! {

/// Everything the game knows about one kind of block.
#[derive(Debug)]
pub struct BlockData {
    pub id: NamespacedId,
    pub textures: BlockTextures,
    pub is_solid: bool,
}

impl Clone for BlockData {
    fn clone(&self) -> (c: Self)
        ensures
            c == *self,
    {
        BlockData {
            id: NamespacedId { namespace: self.id.namespace.clone(), name: self.id.name.clone() },
            textures: self.textures.clone(),
            is_solid: self.is_solid,
        }
    }
}

/// Maps block names to compact numeric ids and ids to block data.
///
/// Ids are handed out in registration order starting at zero, so the data
/// of block `i` sits at index `i` of `internal_to_data`. Registering a
/// name again gives it a fresh id; the name then resolves to the newest
/// one. `string_to_internal` records every registration in order; a name
/// resolves to its latest record.
#[derive(Debug)]
pub struct BlockRegistry {
    pub string_to_internal: Vec<(NamespacedId, u16)>,
    pub internal_to_data: Vec<BlockData>,
    pub next_internal_id: u16,
}

/// The name-to-id map that a sequence of registration records describes:
/// later records override earlier ones.
pub open spec fn records_map(s: Seq<(NamespacedId, u16)>) -> Map<IdView, u16>
    decreases s.len(),
{
    if s.len() == 0 {
        Map::empty()
    } else {
        records_map(s.drop_last()).insert(s.last().0@, s.last().1)
    }
}

/// The texture paths of a sequence of blocks, block after block, each in
/// atlas order.
pub open spec fn textures_of(s: Seq<BlockData>) -> Seq<String>
    decreases s.len(),
{
    if s.len() == 0 {
        Seq::empty()
    } else {
        textures_of(s.drop_last()) + s.last().textures.texture_seq()
    }
}

proof fn lemma_records_suffix(s: Seq<(NamespacedId, u16)>, i: int, k: IdView)
    requires
        0 <= i <= s.len(),
        forall|j: int| i <= j < s.len() ==> (#[trigger] s[j]).0@ != k,
    ensures
        records_map(s).dom().contains(k) == records_map(s.take(i)).dom().contains(k),
        records_map(s).dom().contains(k) ==> records_map(s)[k] == records_map(s.take(i))[k],
    decreases s.len(),
{
    if s.len() == i {
        assert(s.take(i) =~= s);
    } else {
        let t = s.drop_last();
        assert(t.take(i) =~= s.take(i));
        lemma_records_suffix(t, i, k);
    }
}

impl BlockRegistry {
    /// The name-to-id map.
    pub open spec fn ids(&self) -> Map<IdView, u16> {
        records_map(self.string_to_internal@)
    }

    /// The block data, indexed by id.
    pub open spec fn data(&self) -> Seq<BlockData> {
        self.internal_to_data@
    }

    /// The registry's invariant: ids run from zero to `next_internal_id`
    /// without gaps, and a name resolves to an id whose data carries
    /// that name.
    pub open spec fn wf(&self) -> bool {
        &&& self.internal_to_data@.len() == self.next_internal_id
        &&& forall|i: int|
            0 <= i < self.string_to_internal@.len() ==> {
                let (id, n) = #[trigger] self.string_to_internal@[i];
                &&& n < self.next_internal_id
                &&& self.internal_to_data@[n as int].id@ == id@
            }
    }

    /// Gives `data` the next free id and returns that id.
    pub fn register_block(&mut self, data: BlockData) -> (internal_id: u16)
        requires
            old(self).wf(),
            old(self).next_internal_id < u16::MAX,
        ensures
            final(self).wf(),
            internal_id == old(self).next_internal_id,
            final(self).next_internal_id == old(self).next_internal_id + 1,
            final(self).data() == old(self).data().push(data),
            final(self).ids() == old(self).ids().insert(data.id@, internal_id),
    {
        let internal_id = self.next_internal_id;
        self.next_internal_id = self.next_internal_id + 1;
        let key = data.id.clone();
        self.string_to_internal.push((key, internal_id));
        self.internal_to_data.push(data);
        proof {
            let s = self.string_to_internal@;
            assert(s.drop_last() =~= old(self).string_to_internal@);
            assert forall|i: int| 0 <= i < s.len() implies {
                let (id, n) = #[trigger] s[i];
                &&& n < self.next_internal_id
                &&& self.internal_to_data@[n as int].id@ == id@
            } by {
                if i < s.len() - 1 {
                    assert(s[i] == old(self).string_to_internal@[i]);
                }
            }
        }
        internal_id
    }

    /// The id that a block name resolves to, if it was registered.
    pub fn get_internal_id(&self, id: &NamespacedId) -> (r: Option<u16>)
        ensures
            r == (if self.ids().dom().contains(id@) {
                Some(self.ids()[id@])
            } else {
                None
            }),
    {
        let s = &self.string_to_internal;
        let mut i = s.len();
        while i > 0
            invariant
                s@ == self.string_to_internal@,
                i <= s@.len(),
                forall|j: int| i <= j < s@.len() ==> (#[trigger] s@[j]).0@ != id@,
            decreases i,
        {
            if s[i - 1].0.same_as(id) {
                proof {
                    lemma_records_suffix(s@, i as int, id@);
                    let t = s@.take(i as int);
                    assert(t.last() == s@[i - 1]);
                    assert(records_map(t) == records_map(t.drop_last()).insert(t.last().0@, t.last().1));
                }
                return Some(s[i - 1].1);
            }
            i = i - 1;
        }
        proof {
            lemma_records_suffix(s@, 0, id@);
        }
        None
    }

    /// The data of the block with the given id, if that id was handed out.
    pub fn get_data_by_internal(&self, internal_id: u16) -> (r: Option<&BlockData>)
        ensures
            match r {
                Some(d) => internal_id < self.data().len() && *d == self.data()[internal_id as int],
                None => internal_id >= self.data().len(),
            },
    {
        if (internal_id as usize) < self.internal_to_data.len() {
            Some(&self.internal_to_data[internal_id as usize])
        } else {
            None
        }
    }

    /// Every texture path of every block, in id order.
    pub fn all_texture_paths(&self) -> (v: Vec<String>)
        ensures
            v@ == textures_of(self.data()),
    {
        let mut v: Vec<String> = Vec::new();
        let n = self.internal_to_data.len();
        let mut i: usize = 0;
        while i < n
            invariant
                n == self.internal_to_data@.len(),
                i <= n,
                v@ == textures_of(self.internal_to_data@.take(i as int)),
            decreases n - i,
        {
            let t = self.internal_to_data[i].textures.texture_paths();
            let mut j: usize = 0;
            let ghost before = v@;
            while j < t.len()
                invariant
                    j <= t@.len(),
                    v@ == before + t@.take(j as int),
                decreases t@.len() - j,
            {
                v.push(t[j].clone());
                proof {
                    assert(t@.take(j + 1) =~= t@.take(j as int).push(t@[j as int]));
                }
                j = j + 1;
            }
            proof {
                assert(t@.take(j as int) =~= t@);
                assert(self.internal_to_data@.take(i + 1).drop_last() =~= self.internal_to_data@.take(i as int));
            }
            i = i + 1;
        }
        proof {
            assert(self.internal_to_data@.take(n as int) =~= self.internal_to_data@);
        }
        v
    }
}

impl Default for BlockRegistry {
    fn default() -> (r: Self)
        ensures
            r.wf(),
            r.next_internal_id == 0,
            r.data() == Seq::<BlockData>::empty(),
            r.ids() == Map::<IdView, u16>::empty(),
    {
        BlockRegistry {
            string_to_internal: Vec::new(),
            internal_to_data: Vec::new(),
            next_internal_id: 0,
        }
    }
}

} // verus!

verus! {

/// Namespace of the blocks that ship with the game.
pub open spec fn base_namespace() -> Seq<char> {
    "superdupervoxels"@
}

/// A block of the base namespace, as `setup_registry` registers it.
pub open spec fn base_block(name: Seq<char>, textures: BlockTextures, is_solid: bool, b: BlockData) -> bool {
    &&& b.id@ == (base_namespace(), name)
    &&& b.textures == textures
    &&& b.is_solid == is_solid
}

/// Registers the built-in blocks in id order: air (untextured, not
/// solid), then dirt and grass (solid) with the given textures.
pub fn setup_registry(registry: &mut BlockRegistry, dirt: BlockTextures, grass: BlockTextures)
    requires
        old(registry).wf(),
        old(registry).next_internal_id + 3 <= u16::MAX,
    ensures
        final(registry).wf(),
        final(registry).next_internal_id == old(registry).next_internal_id + 3,
        final(registry).data().len() == old(registry).data().len() + 3,
        final(registry).data().take(old(registry).data().len() as int) == old(registry).data(),
        base_block(
            "air"@,
            BlockTextures::Untextured,
            false,
            final(registry).data()[old(registry).data().len() as int],
        ),
        base_block("dirt"@, dirt, true, final(registry).data()[old(registry).data().len() + 1int]),
        base_block("grass"@, grass, true, final(registry).data()[old(registry).data().len() + 2int]),
        final(registry).ids() == old(registry).ids().insert(
            (base_namespace(), "air"@),
            old(registry).next_internal_id,
        ).insert((base_namespace(), "dirt"@), (old(registry).next_internal_id + 1) as u16).insert(
            (base_namespace(), "grass"@),
            (old(registry).next_internal_id + 2) as u16,
        ),
{
    let ghost d0 = registry.data();
    registry.register_block(
        BlockData {
            id: NamespacedId::new("superdupervoxels", "air"),
            textures: BlockTextures::Untextured,
            is_solid: false,
        },
    );
    registry.register_block(
        BlockData { id: NamespacedId::new("superdupervoxels", "dirt"), textures: dirt, is_solid: true },
    );
    registry.register_block(
        BlockData {
            id: NamespacedId::new("superdupervoxels", "grass"),
            textures: grass,
            is_solid: true,
        },
    );
    proof {
        assert(registry.data().take(d0.len() as int) =~= d0);
    }
}

/// Load progress of one texture.
#[derive(Clone, Copy, Debug, PartialEq, Eq, Structural)]
pub enum TextureLoad {
    Pending,
    Loaded,
    Failed,
}

/// Whether the texture atlas can be stitched yet.
#[derive(Clone, Copy, Debug, PartialEq, Eq)]
pub enum AtlasReadiness {
    /// Some texture is still loading: try again later.
    Wait,
    /// The texture at this index failed to load, and every texture
    /// before it has loaded.
    Failed(usize),
    /// Every texture has loaded.
    Ready,
}

/// Index of the first texture that has not loaded, if there is one.
pub open spec fn first_unloaded(states: Seq<TextureLoad>) -> Option<int> {
    if exists|i: int| 0 <= i < states.len() && states[i] != TextureLoad::Loaded {
        Some(
            choose|i: int|
                0 <= i < states.len() && states[i] != TextureLoad::Loaded && forall|j: int|
                    0 <= j < i ==> states[j] == TextureLoad::Loaded,
        )
    } else {
        None
    }
}

/// Readiness from the textures' load states, inspected in order: the first
/// texture that has not loaded decides (a failure at its index, or a
/// wait); if there is none, the atlas is ready.
pub open spec fn atlas_readiness_spec(states: Seq<TextureLoad>) -> AtlasReadiness {
    match first_unloaded(states) {
        None => AtlasReadiness::Ready,
        Some(i) => if states[i] == TextureLoad::Failed {
            AtlasReadiness::Failed(i as usize)
        } else {
            AtlasReadiness::Wait
        },
    }
}

/// Decides from the textures' load states whether to stitch the atlas.
pub fn atlas_readiness(states: &Vec<TextureLoad>) -> (r: AtlasReadiness)
    ensures
        r == atlas_readiness_spec(states@),
{
    let mut i: usize = 0;
    while i < states.len()
        invariant
            i <= states@.len(),
            forall|j: int| 0 <= j < i ==> states@[j] == TextureLoad::Loaded,
        decreases states@.len() - i,
    {
        match states[i] {
            TextureLoad::Loaded => {},
            TextureLoad::Failed => {
                proof {
                    lemma_first_unloaded_is(states@, i as int);
                }
                return AtlasReadiness::Failed(i);
            },
            TextureLoad::Pending => {
                proof {
                    lemma_first_unloaded_is(states@, i as int);
                }
                return AtlasReadiness::Wait;
            },
        }
        i = i + 1;
    }
    AtlasReadiness::Ready
}

proof fn lemma_first_unloaded_is(states: Seq<TextureLoad>, i: int)
    requires
        0 <= i < states.len(),
        states[i] != TextureLoad::Loaded,
        forall|j: int| 0 <= j < i ==> states[j] == TextureLoad::Loaded,
    ensures
        first_unloaded(states) == Some(i),
{
    let k = choose|k: int|
        0 <= k < states.len() && states[k] != TextureLoad::Loaded && forall|j: int|
            0 <= j < k ==> states[j] == TextureLoad::Loaded;
    assert(0 <= k < states.len() && states[k] != TextureLoad::Loaded && forall|j: int|
        0 <= j < k ==> states[j] == TextureLoad::Loaded);
    if k < i {
    } else if k > i {
        assert(states[i] == TextureLoad::Loaded);
    }
}

/// In a well-formed registry a name resolves to an id that was handed out
/// and whose data carries that very name.
pub proof fn lemma_resolved_id_names_its_data(registry: BlockRegistry, name: IdView)
    requires
        registry.wf(),
        registry.ids().dom().contains(name),
    ensures
        registry.ids()[name] < registry.next_internal_id,
        registry.data()[registry.ids()[name] as int].id@ == name,
{
    lemma_records_witness(registry.string_to_internal@, name);
    let i = choose|i: int|
        0 <= i < registry.string_to_internal@.len() && registry.string_to_internal@[i].0@ == name
            && registry.string_to_internal@[i].1 == registry.ids()[name];
    let _ = registry.string_to_internal@[i];
}

proof fn lemma_records_witness(s: Seq<(NamespacedId, u16)>, k: IdView)
    requires
        records_map(s).dom().contains(k),
    ensures
        exists|i: int| 0 <= i < s.len() && (#[trigger] s[i]).0@ == k && s[i].1 == records_map(s)[k],
    decreases s.len(),
{
    let t = s.drop_last();
    if s.last().0@ == k {
        assert(s[s.len() - 1].0@ == k);
    } else {
        lemma_records_witness(t, k);
        let i = choose|i: int| 0 <= i < t.len() && (#[trigger] t[i]).0@ == k && t[i].1 == records_map(t)[k];
        assert(s[i] == t[i]);
    }
}

/// Reading back a registration: after a block is registered under a
/// fresh id, its name resolves to that id and the id gives back the block.
pub proof fn lemma_register_then_lookup(
    before: BlockRegistry,
    after: BlockRegistry,
    data: BlockData,
    internal_id: u16,
)
    requires
        before.wf(),
        internal_id == before.next_internal_id,
        after.data() == before.data().push(data),
        after.ids() == before.ids().insert(data.id@, internal_id),
    ensures
        after.ids().dom().contains(data.id@),
        after.ids()[data.id@] == internal_id,
        internal_id < after.data().len(),
        after.data()[internal_id as int] == data,
        forall|i: int| 0 <= i < before.data().len() ==> after.data()[i] == before.data()[i],
{
}

} // verus!

verus! {

/// Which texture each face shows: a shared texture covers every face, a
/// sided block shows its top texture on top faces, its bottom texture on
/// bottom faces and its side texture on side faces, and an untextured
/// block shows none.
pub proof fn lemma_face_texture_choice(t: BlockTextures, slot: FaceSlot)
    ensures
        t matches BlockTextures::All(p) ==> t.face_texture_spec(slot) == Some(p),
        t matches BlockTextures::Sided { top, bottom, side } ==> t.face_texture_spec(slot) == Some(
            if slot == FaceSlot::Top {
                top
            } else if slot == FaceSlot::Bottom {
                bottom
            } else {
                side
            },
        ),
        t is Untextured ==> t.face_texture_spec(slot) is None,
        t.face_texture_spec(slot) matches Some(p) ==> t.texture_seq().contains(p),
{
    match t {
        BlockTextures::All(p) => {
            assert(t.texture_seq()[0] == p);
        },
        BlockTextures::Sided { top, bottom, side } => {
            assert(t.texture_seq()[0] == top);
            assert(t.texture_seq()[1] == bottom);
            assert(t.texture_seq()[2] == side);
        },
        BlockTextures::Untextured => {},
    }
}

} // verus!
