//! The registry of block kinds: each kind's code, name, textures and flags, and the
//! numbering of the textures for rendering.

use super::{
    lemma_toggle, spec_kind, Block, BlockTrait, AIR_BLOCK, AIR_BLOCK_KIND, SOLID_BIT_MASK,
    TRANSPARENT_BIT_MASK,
};
use vstd::prelude::*;

verus! {

pub const FACE_XP: usize = 0;
pub const FACE_XM: usize = 1;
pub const FACE_YP: usize = 2;
pub const FACE_YM: usize = 3;
pub const FACE_ZP: usize = 4;
pub const FACE_ZM: usize = 5;

/// The definition of a kind of block.
#[derive(Clone, Debug)]
pub struct BlockDef {
    pub code: String,
    pub name: String,
    /// No texture, or one per face in the order +x, -x, +y, -y, +z, -z.
    pub textures: Vec<String>,
    pub solid: bool,
    pub transparent: bool,
    pub buildable: bool,
    pub light: u8,
}

/// The texture names of a block definition.
pub open spec fn tex_views(d: BlockDef) -> Seq<Seq<char>> {
    d.textures@.map_values(|s: String| s@)
}

/// The texture names of the blocks, block after block.
pub open spec fn all_textures(bs: Seq<BlockDef>) -> Seq<Seq<char>>
    decreases bs.len(),
{
    if bs.len() == 0 {
        Seq::empty()
    } else {
        all_textures(bs.drop_last()) + tex_views(bs.last())
    }
}

/// The names of `s`, each once, in the order they first occur.
pub open spec fn first_seen(s: Seq<Seq<char>>) -> Seq<Seq<char>>
    decreases s.len(),
{
    if s.len() == 0 {
        Seq::empty()
    } else {
        let d = first_seen(s.drop_last());
        if d.contains(s.last()) {
            d
        } else {
            d.push(s.last())
        }
    }
}

/// Every block has no texture or one per face.
pub open spec fn textures_ok(bs: Seq<BlockDef>) -> bool {
    forall|i: int| 0 <= i < bs.len() ==> (#[trigger] bs[i]).textures.len() == 0 || bs[i].textures.len() == 6
}

/// `ix` numbers the textures of `d` by their places in `names`: none without textures.
pub open spec fn indices_ok(names: Seq<Seq<char>>, d: BlockDef, ix: Option<Vec<usize>>) -> bool {
    match ix {
        None => d.textures.len() == 0,
        Some(v) => {
            &&& d.textures.len() > 0
            &&& v.len() == 6
            &&& forall|j: int| 0 <= j < 6 ==> (#[trigger] v@[j]) < names.len() && names[v@[j] as int] == tex_views(d)[j]
        },
    }
}

/// `d` is the block definition with the given fields.
pub open spec fn block_def_is(
    d: BlockDef,
    code: Seq<char>,
    name: Seq<char>,
    textures: Seq<Seq<char>>,
    solid: bool,
    transparent: bool,
    light: u8,
    buildable: bool,
) -> bool {
    &&& d.code@ == code
    &&& d.name@ == name
    &&& tex_views(d) == textures
    &&& d.solid == solid
    &&& d.transparent == transparent
    &&& d.light == light
    &&& d.buildable == buildable
}

/// A block of kind `kind` with the flags its definition gives it.
pub open spec fn with_flags(kind: Block, d: BlockDef) -> Block {
    let b = if d.transparent {
        kind ^ TRANSPARENT_BIT_MASK
    } else {
        kind
    };
    if d.solid {
        b ^ SOLID_BIT_MASK
    } else {
        b
    }
}

/// The first place, from `from` on, of a block with code `code`; the number of blocks when
/// there is none.
pub open spec fn find_code(bs: Seq<BlockDef>, code: Seq<char>, from: int) -> int
    decreases bs.len() - from,
{
    if from < 0 || from >= bs.len() {
        bs.len() as int
    } else if bs[from].code@ == code {
        from
    } else {
        find_code(bs, code, from + 1)
    }
}

/// The block definitions in order of their kind, with the textures numbered.
#[derive(Clone, Debug)]
pub struct BlockRegistry {
    blocks: Vec<BlockDef>,
    texture_names: Vec<String>,
    block_texture_indices: Vec<Option<Vec<usize>>>,
}

/// Six copies of a texture name.
fn six(texture: &str) -> (r: Vec<String>)
    ensures
        r@.map_values(|s: String| s@) == seq![texture@, texture@, texture@, texture@, texture@, texture@],
{
    let r = vec![
        texture.to_owned(),
        texture.to_owned(),
        texture.to_owned(),
        texture.to_owned(),
        texture.to_owned(),
        texture.to_owned(),
    ];
    proof {
        assert(r@.map_values(|s: String| s@) =~= seq![texture@, texture@, texture@, texture@, texture@, texture@]);
    }
    r
}

/// Whether `names` holds `name`.
fn contains_name(names: &Vec<String>, name: &String) -> (r: bool)
    ensures
        r == names@.map_values(|s: String| s@).contains(name@),
{
    let ghost v = names@.map_values(|s: String| s@);
    let mut i: usize = 0;
    while i < names.len()
        invariant
            i <= names.len(),
            v == names@.map_values(|s: String| s@),
            forall|j: int| 0 <= j < i ==> v[j] != name@,
        decreases names.len() - i,
    {
        if names[i] == *name {
            proof {
                assert(v[i as int] == name@);
            }
            return true;
        }
        i = i + 1;
    }
    false
}

/// The first place of `name` in `names`, which holds it.
fn position_of(names: &Vec<String>, name: &String) -> (r: usize)
    requires
        names@.map_values(|s: String| s@).contains(name@),
    ensures
        r < names.len(),
        names@.map_values(|s: String| s@)[r as int] == name@,
{
    let ghost v = names@.map_values(|s: String| s@);
    let mut i: usize = 0;
    while i < names.len()
        invariant
            i <= names.len(),
            v == names@.map_values(|s: String| s@),
            v.contains(name@),
            forall|j: int| 0 <= j < i ==> v[j] != name@,
        decreases names.len() - i,
    {
        if names[i] == *name {
            return i;
        }
        i = i + 1;
    }
    proof {
        let j = choose|j: int| 0 <= j < v.len() && v[j] == name@;
        assert(v[j] != name@);
    }
    0
}

/// A sequence with one more element holds what it held, and that element.
proof fn lemma_push_contains(t: Seq<Seq<char>>, l: Seq<char>, x: Seq<char>)
    ensures
        t.push(l).contains(x) <==> t.contains(x) || x == l,
{
    if t.contains(x) {
        let i = choose|i: int| 0 <= i < t.len() && t[i] == x;
        assert(t.push(l)[i] == x);
    }
    if x == l {
        assert(t.push(l)[t.len() as int] == x);
    }
    if t.push(l).contains(x) && x != l {
        let i = choose|i: int| 0 <= i < t.push(l).len() && t.push(l)[i] == x;
        assert(t[i] == x);
    }
}

/// A name occurs in the first-seen names of `s` exactly when it occurs in `s`.
proof fn lemma_first_seen(s: Seq<Seq<char>>)
    ensures
        forall|x: Seq<char>| #[trigger] first_seen(s).contains(x) <==> s.contains(x),
    decreases s.len(),
{
    if s.len() > 0 {
        let p = s.drop_last();
        let l = s.last();
        lemma_first_seen(p);
        let d = first_seen(p);
        assert(s =~= p.push(l));
        assert forall|x: Seq<char>| #[trigger] first_seen(s).contains(x) <==> s.contains(x) by {
            lemma_push_contains(p, l, x);
            lemma_push_contains(d, l, x);
            assert(d.contains(x) <==> p.contains(x));
            assert(d.contains(l) <==> p.contains(l));
        }
    }
}

/// Every texture of a block is among the textures of all blocks.
proof fn lemma_all_textures(bs: Seq<BlockDef>, i: int, j: int)
    requires
        0 <= i < bs.len(),
        0 <= j < bs[i].textures.len(),
    ensures
        all_textures(bs).contains(tex_views(bs[i])[j]),
    decreases bs.len(),
{
    let d = bs.drop_last();
    if i < bs.len() - 1 {
        lemma_all_textures(d, i, j);
        assert(d[i] == bs[i]);
        let k = choose|k: int| 0 <= k < all_textures(d).len() && all_textures(d)[k] == tex_views(bs[i])[j];
        assert(all_textures(bs)[k] == all_textures(d)[k]);
    } else {
        assert(all_textures(bs)[all_textures(d).len() + j] == tex_views(bs.last())[j]);
    }
}

impl BlockRegistry {
    /// The block definitions, in order of their kind.
    pub closed spec fn spec_blocks(&self) -> Seq<BlockDef> {
        self.blocks@
    }

    /// The texture names, each once, in the order they first occur in the definitions.
    pub closed spec fn spec_texture_names(&self) -> Seq<Seq<char>> {
        self.texture_names@.map_values(|s: String| s@)
    }

    /// For each kind of block, the numbers of its textures, if it has textures.
    pub closed spec fn spec_texture_indices(&self) -> Seq<Option<Vec<usize>>> {
        self.block_texture_indices@
    }

    /// The textures are numbered: the names are those of all blocks, each once in order of
    /// first occurrence, and each block's textures are numbered by their names' places.
    pub open spec fn indexed(&self) -> bool {
        &&& self.spec_texture_names() == first_seen(all_textures(self.spec_blocks()))
        &&& self.spec_texture_indices().len() == self.spec_blocks().len()
        &&& forall|i: int|
            0 <= i < self.spec_blocks().len() ==> indices_ok(
                self.spec_texture_names(),
                #[trigger] self.spec_blocks()[i],
                self.spec_texture_indices()[i],
            )
    }

    pub fn empty() -> (r: BlockRegistry)
        ensures
            r.spec_blocks() == Seq::<BlockDef>::empty(),
            r.indexed(),
    {
        let r = BlockRegistry { blocks: Vec::new(), texture_names: Vec::new(), block_texture_indices: Vec::new() };
        proof {
            assert(r.spec_texture_names() =~= Seq::<Seq<char>>::empty());
        }
        r
    }

    /// The registry of the given definitions, with their textures numbered.
    pub fn from_blocks(blocks: Vec<BlockDef>) -> (r: Self)
        requires
            textures_ok(blocks@),
        ensures
            r.spec_blocks() == blocks@,
            r.indexed(),
    {
        let mut registry = BlockRegistry::empty();
        registry.blocks = blocks;
        registry.build_indexes();
        registry
    }

    /// The standard blocks: air and bedrock first, then water, stone, dirt, sand and grass.
    pub fn default() -> (r: BlockRegistry)
        ensures
            r.spec_blocks().len() == 7,
            block_def_is(r.spec_blocks()[0], "air"@, "Air"@, seq![], false, true, 0, false),
            block_def_is(
                r.spec_blocks()[1],
                "bedrock"@,
                "Bedrock"@,
                seq!["bedrock"@, "bedrock"@, "bedrock"@, "bedrock"@, "bedrock"@, "bedrock"@],
                true,
                false,
                0,
                false,
            ),
            block_def_is(
                r.spec_blocks()[2],
                "water"@,
                "Water"@,
                seq!["water"@, "water"@, "water"@, "water"@, "water"@, "water"@],
                false,
                true,
                0,
                false,
            ),
            block_def_is(
                r.spec_blocks()[3],
                "stone"@,
                "Stone"@,
                seq!["stone"@, "stone"@, "stone"@, "stone"@, "stone"@, "stone"@],
                true,
                false,
                0,
                true,
            ),
            block_def_is(
                r.spec_blocks()[4],
                "dirt"@,
                "Dirt"@,
                seq!["dirt"@, "dirt"@, "dirt"@, "dirt"@, "dirt"@, "dirt"@],
                true,
                false,
                0,
                true,
            ),
            block_def_is(
                r.spec_blocks()[5],
                "sand"@,
                "Sand"@,
                seq!["sand"@, "sand"@, "sand"@, "sand"@, "sand"@, "sand"@],
                true,
                false,
                0,
                true,
            ),
            block_def_is(
                r.spec_blocks()[6],
                "grass"@,
                "Grass"@,
                seq![
                    "grass_block_side"@,
                    "grass_block_side"@,
                    "grass_block_side"@,
                    "grass_block_side"@,
                    "grass_block_top"@,
                    "dirt"@,
                ],
                true,
                false,
                0,
                true,
            ),
            r.indexed(),
    {
        let mut registry = BlockRegistry::empty();
        // First blocks (index 0 and 1) is always air and bedrock
        let no_textures: Vec<String> = Vec::new();
        proof {
            assert(no_textures@.map_values(|s: String| s@) =~= Seq::<Seq<char>>::empty());
        }
        registry.add("air", "Air", no_textures, false, true, 0, false);
        registry.add("bedrock", "Bedrock", six("bedrock"), true, false, 0, false);
        registry.add("water", "Water", six("water"), false, true, 0, false);
        registry.add("stone", "Stone", six("stone"), true, false, 0, true);
        registry.add("dirt", "Dirt", six("dirt"), true, false, 0, true);
        registry.add("sand", "Sand", six("sand"), true, false, 0, true);
        let grass = vec![
            "grass_block_side".to_owned(),
            "grass_block_side".to_owned(),
            "grass_block_side".to_owned(),
            "grass_block_side".to_owned(),
            "grass_block_top".to_owned(),
            "dirt".to_owned(),
        ];
        proof {
            assert(grass@.map_values(|s: String| s@) =~= seq![
                "grass_block_side"@,
                "grass_block_side"@,
                "grass_block_side"@,
                "grass_block_side"@,
                "grass_block_top"@,
                "dirt"@,
            ]);
        }
        registry.add("grass", "Grass", grass, true, false, 0, true);
        proof {
            let bs = registry.spec_blocks();
            assert forall|i: int| 0 <= i < bs.len() implies (#[trigger] bs[i]).textures.len() == 0 || bs[i].textures.len() == 6 by {
                assert(tex_views(bs[i]).len() == bs[i].textures.len());
            }
        }
        registry.build_indexes();
        registry
    }

    /// Append a block definition; returns its kind.
    fn add(
        &mut self,
        code: &str,
        name: &str,
        textures: Vec<String>,
        solid: bool,
        transparent: bool,
        light: u8,
        buildable: bool,
    ) -> (r: Block)
        ensures
            final(self).spec_blocks().len() == old(self).spec_blocks().len() + 1,
            forall|i: int| 0 <= i < old(self).spec_blocks().len() ==> final(self).spec_blocks()[i] == #[trigger] old(self).spec_blocks()[i],
            block_def_is(
                final(self).spec_blocks().last(),
                code@,
                name@,
                textures@.map_values(|s: String| s@),
                solid,
                transparent,
                light,
                buildable,
            ),
            r == old(self).spec_blocks().len() as u32,
    {
        let index = self.blocks.len() as u32;
        self.blocks.push(
            BlockDef { code: code.to_owned(), name: name.to_owned(), textures, solid, transparent, light, buildable },
        );
        index
    }

    /// The kind of the first block with code `code`, with its flags; air when there is none.
    pub fn block_from_code(&self, code: &str) -> (r: Block)
        ensures
            ({
                let i = find_code(self.spec_blocks(), code@, 0);
                if i < self.spec_blocks().len() {
                    r == with_flags(i as u32, self.spec_blocks()[i])
                } else {
                    r == AIR_BLOCK
                }
            }),
    {
        let ghost bs = self.spec_blocks();
        let ghost c = code@;
        let wanted = code.to_owned();
        let mut block: usize = 0;
        while block < self.blocks.len()
            invariant
                bs == self.spec_blocks(),
                c == code@,
                c == wanted@,
                block <= self.blocks.len(),
                find_code(bs, c, 0) == find_code(bs, c, block as int),
            decreases self.blocks.len() - block,
        {
            let block_def = &self.blocks[block];
            if block_def.code == wanted {
                proof {
                    assert(find_code(bs, c, block as int) == block);
                }
                let mut b = block as Block;
                if block_def.transparent {
                    b.toggle_transparency();
                }
                if block_def.solid {
                    b.toggle_solidity();
                }
                return b;
            }
            block += 1;
        }
        AIR_BLOCK
    }

    /// The kind of the first block with code `code`; the kind of air when there is none.
    pub fn block_kind_from_code(&self, code: &str) -> (r: Block)
        ensures
            ({
                let i = find_code(self.spec_blocks(), code@, 0);
                if i < self.spec_blocks().len() {
                    r == i as u32
                } else {
                    r == AIR_BLOCK_KIND
                }
            }),
    {
        let ghost bs = self.spec_blocks();
        let ghost c = code@;
        let wanted = code.to_owned();
        let mut block: usize = 0;
        while block < self.blocks.len()
            invariant
                bs == self.spec_blocks(),
                c == code@,
                c == wanted@,
                block <= self.blocks.len(),
                find_code(bs, c, 0) == find_code(bs, c, block as int),
            decreases self.blocks.len() - block,
        {
            if self.blocks[block].code == wanted {
                proof {
                    assert(find_code(bs, c, block as int) == block);
                }
                return block as Block;
            }
            block += 1;
        }
        AIR_BLOCK_KIND
    }

    /// The kind of `block` with the flags its definition gives it.
    pub fn set_block_flags(&self, block: Block) -> (r: Block)
        requires
            spec_kind(block) < self.spec_blocks().len(),
        ensures
            r == with_flags(spec_kind(block), self.spec_blocks()[spec_kind(block) as int]),
    {
        let mut block = block.kind();
        let block_def = &self.blocks[block as usize];
        if block_def.transparent {
            block.toggle_transparency();
        }
        if block_def.solid {
            block.toggle_solidity();
        }
        block
    }

    /// Number the textures: collect the texture names in order of first occurrence, then
    /// give each block the places of its textures' names.
    fn build_indexes(&mut self)
        requires
            textures_ok(old(self).spec_blocks()),
        ensures
            final(self).spec_blocks() == old(self).spec_blocks(),
            final(self).indexed(),
    {
        let ghost bs = self.spec_blocks();
        // Build the texture names in the order they first occur
        let mut names: Vec<String> = Vec::new();
        let mut block: usize = 0;
        proof {
            assert(bs.take(0) =~= Seq::<BlockDef>::empty());
            assert(names@.map_values(|s: String| s@) =~= first_seen(all_textures(bs.take(0))));
        }
        while block < self.blocks.len()
            invariant
                bs == self.spec_blocks(),
                block <= self.blocks.len(),
                names@.map_values(|s: String| s@) == first_seen(all_textures(bs.take(block as int))),
            decreases self.blocks.len() - block,
        {
            let block_def = &self.blocks[block];
            let ghost pre = all_textures(bs.take(block as int));
            let ghost tv = tex_views(bs[block as int]);
            let mut t: usize = 0;
            proof {
                assert(pre + tv.take(0) =~= pre);
            }
            while t < block_def.textures.len()
                invariant
                    bs == self.spec_blocks(),
                    block < self.blocks.len(),
                    *block_def == bs[block as int],
                    tv == tex_views(bs[block as int]),
                    t <= block_def.textures.len(),
                    names@.map_values(|s: String| s@) == first_seen(pre + tv.take(t as int)),
                decreases block_def.textures.len() - t,
            {
                let texture = &block_def.textures[t];
                let ghost before = pre + tv.take(t as int);
                proof {
                    assert(tv[t as int] == texture@);
                    assert((pre + tv.take(t + 1)).drop_last() =~= before);
                    assert((pre + tv.take(t + 1)).last() == texture@);
                }
                if !contains_name(&names, texture) {
                    names.push(texture.clone());
                    proof {
                        assert(names@.map_values(|s: String| s@) =~= first_seen(before).push(texture@));
                    }
                }
                t += 1;
            }
            proof {
                assert(tv.take(tv.len() as int) =~= tv);
                assert(bs.take(block + 1).drop_last() =~= bs.take(block as int));
                assert(bs.take(block + 1).last() == bs[block as int]);
            }
            block += 1;
        }
        proof {
            assert(bs.take(bs.len() as int) =~= bs);
            lemma_first_seen(all_textures(bs));
        }
        let ghost nv = names@.map_values(|s: String| s@);
        // Number each block's textures by their names' places
        let mut indices: Vec<Option<Vec<usize>>> = Vec::new();
        block = 0;
        while block < self.blocks.len()
            invariant
                bs == self.spec_blocks(),
                textures_ok(bs),
                nv == names@.map_values(|s: String| s@),
                nv == first_seen(all_textures(bs)),
                forall|x: Seq<char>| #[trigger] nv.contains(x) <==> all_textures(bs).contains(x),
                block <= self.blocks.len(),
                indices.len() == block,
                forall|i: int| 0 <= i < block ==> indices_ok(nv, #[trigger] bs[i], indices@[i]),
            decreases self.blocks.len() - block,
        {
            let block_def = &self.blocks[block];
            if block_def.textures.len() > 0 {
                proof {
                    assert(bs[block as int].textures.len() == 6);
                }
                let mut v: Vec<usize> = Vec::new();
                let mut i: usize = 0;
                while i < 6
                    invariant
                        bs == self.spec_blocks(),
                        block < bs.len(),
                        *block_def == bs[block as int],
                        block_def.textures.len() == 6,
                        nv == names@.map_values(|s: String| s@),
                        forall|x: Seq<char>| #[trigger] nv.contains(x) <==> all_textures(bs).contains(x),
                        i <= 6,
                        v.len() == i,
                        forall|j: int| 0 <= j < i ==> (#[trigger] v@[j]) < nv.len() && nv[v@[j] as int] == tex_views(bs[block as int])[j],
                    decreases 6 - i,
                {
                    proof {
                        lemma_all_textures(bs, block as int, i as int);
                        assert(tex_views(bs[block as int])[i as int] == block_def.textures[i as int]@);
                    }
                    let index = position_of(&names, &block_def.textures[i]);
                    v.push(index);
                    i += 1;
                }
                indices.push(Some(v));
            } else {
                indices.push(None);
            }
            block += 1;
        }
        self.texture_names = names;
        self.block_texture_indices = indices;
    }

    /// The definition of the kind of `block`, which must be registered.
    pub fn get(&self, block: Block) -> (r: &BlockDef)
        requires
            spec_kind(block) < self.spec_blocks().len(),
        ensures
            *r == self.spec_blocks()[spec_kind(block) as int],
    {
        self.blocks.get(block.kind() as usize).unwrap()
    }

    /// All block definitions, in order of their kind.
    pub fn all_blocks(&self) -> (r: &Vec<BlockDef>)
        ensures
            r@ == self.spec_blocks(),
    {
        &self.blocks
    }

    /// The texture names, each once, numbered by their place.
    pub fn texture_names(&self) -> (r: &Vec<String>)
        ensures
            r@.map_values(|s: String| s@) == self.spec_texture_names(),
    {
        &self.texture_names
    }

    /// For each kind of block, the numbers of its six textures, if it has textures.
    pub fn block_texture_indices(&self) -> (r: &Vec<Option<Vec<usize>>>)
        ensures
            r@ == self.spec_texture_indices(),
    {
        &self.block_texture_indices
    }
}

} // verus!
