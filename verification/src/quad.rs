//! Packed voxel quads: the geometry format exchanged between the generator, the
//! server tables and the client renderer.
//!
//! A quad is four `u32` words: the voxel coordinates `x`, `y`, `z`, and a word that
//! holds the face in bits 0..3, `width - 1` in bits 3..8, `height - 1` in bits
//! 8..17 and the material from bit 17 on.

use vstd::prelude::*;

verus! {

/// The six axis-aligned faces of a voxel.
#[derive(Clone, Copy, PartialEq, Eq, Structural, Debug)]
pub enum Face {
    Up,
    Front,
    Back,
    Right,
    Left,
    Down,
}

/// Surface and vegetation materials, in the order of their wire codes.
#[derive(Clone, Copy, PartialEq, Eq, Structural, Debug)]
pub enum Material {
    Grass,
    Rock,
    Snow,
    Water,
    Cloud,
    Foam,
    Gravel,
    Dirt,
    TallGrass,
    Wood,
    Leaves,
    Bush,
    FlowerRed,
    FlowerYellow,
    Stem,
}

impl Face {
    /// The wire code of the face.
    pub open spec fn bits(self) -> u32 {
        match self {
            Face::Up => 0,
            Face::Front => 1,
            Face::Back => 2,
            Face::Right => 3,
            Face::Left => 4,
            Face::Down => 5,
        }
    }

    pub fn code(self) -> (code: u32)
        ensures
            code == self.bits(),
    {
        match self {
            Face::Up => 0,
            Face::Front => 1,
            Face::Back => 2,
            Face::Right => 3,
            Face::Left => 4,
            Face::Down => 5,
        }
    }
}

impl Material {
    /// The wire code of the material.
    pub open spec fn bits(self) -> u32 {
        match self {
            Material::Grass => 0,
            Material::Rock => 1,
            Material::Snow => 2,
            Material::Water => 3,
            Material::Cloud => 4,
            Material::Foam => 5,
            Material::Gravel => 6,
            Material::Dirt => 7,
            Material::TallGrass => 8,
            Material::Wood => 9,
            Material::Leaves => 10,
            Material::Bush => 11,
            Material::FlowerRed => 12,
            Material::FlowerYellow => 13,
            Material::Stem => 14,
        }
    }

    pub fn code(self) -> (code: u32)
        ensures
            code == self.bits(),
    {
        match self {
            Material::Grass => 0,
            Material::Rock => 1,
            Material::Snow => 2,
            Material::Water => 3,
            Material::Cloud => 4,
            Material::Foam => 5,
            Material::Gravel => 6,
            Material::Dirt => 7,
            Material::TallGrass => 8,
            Material::Wood => 9,
            Material::Leaves => 10,
            Material::Bush => 11,
            Material::FlowerRed => 12,
            Material::FlowerYellow => 13,
            Material::Stem => 14,
        }
    }
}

/// One packed quad.
#[derive(Clone, Copy, Debug)]
pub struct Quad {
    pub packed: [u32; 4],
}

/// The attribute word of a quad with the given face, extent and material.
pub open spec fn attribute_word(face: Face, width: nat, height: nat, material: Material) -> u32 {
    face.bits() | (((width - 1) as u32) << 3u32) | (((height - 1) as u32) << 8u32) | (
    material.bits() << 17u32)
}

/// The quad at voxel `(x, y, z)` with the given face, extent and material.
pub open spec fn quad_of(
    x: u32,
    y: u32,
    z: u32,
    face: Face,
    width: nat,
    height: nat,
    material: Material,
) -> Quad {
    Quad { packed: [x, y, z, attribute_word(face, width, height, material)] }
}

/// Extents that the attribute word can hold.
pub open spec fn valid_extent(width: nat, height: nat) -> bool {
    1 <= width <= 32 && 1 <= height <= 512
}

impl Quad {
    pub open spec fn x(self) -> u32 {
        self.packed[0]
    }

    pub open spec fn y(self) -> u32 {
        self.packed[1]
    }

    pub open spec fn z(self) -> u32 {
        self.packed[2]
    }

    /// The face code stored in the attribute word.
    pub open spec fn face_bits(self) -> u32 {
        self.packed[3] & 7
    }

    /// `width - 1` as stored in the attribute word.
    pub open spec fn width_bits(self) -> u32 {
        (self.packed[3] >> 3u32) & 31
    }

    /// `height - 1` as stored in the attribute word.
    pub open spec fn height_bits(self) -> u32 {
        (self.packed[3] >> 8u32) & 511
    }

    /// The material code stored in the attribute word.
    pub open spec fn material_bits(self) -> u32 {
        self.packed[3] >> 17u32
    }

    /// Two quads with the same four words.
    pub open spec fn same_as(self, other: Quad) -> bool {
        &&& self.packed[0] == other.packed[0]
        &&& self.packed[1] == other.packed[1]
        &&& self.packed[2] == other.packed[2]
        &&& self.packed[3] == other.packed[3]
    }

    /// The material code of the quad.
    pub fn material_code(&self) -> (code: u32)
        ensures
            code == self.material_bits(),
    {
        self.packed[3] >> 17
    }
}

proof fn lemma_attribute_fields(f: u32, w: u32, h: u32, m: u32)
    by (bit_vector)
    requires
        f < 8,
        w < 32,
        h < 512,
        m < 32768,
    ensures
        (f | (w << 3u32) | (h << 8u32) | (m << 17u32)) & 7 == f,
        ((f | (w << 3u32) | (h << 8u32) | (m << 17u32)) >> 3u32) & 31 == w,
        ((f | (w << 3u32) | (h << 8u32) | (m << 17u32)) >> 8u32) & 511 == h,
        (f | (w << 3u32) | (h << 8u32) | (m << 17u32)) >> 17u32 == m,
{
}

/// A packed quad gives back each field it was packed from.
pub proof fn lemma_quad_fields(
    x: u32,
    y: u32,
    z: u32,
    face: Face,
    width: nat,
    height: nat,
    material: Material,
)
    requires
        valid_extent(width, height),
    ensures
        ({
            let q = quad_of(x, y, z, face, width, height, material);
            &&& q.x() == x
            &&& q.y() == y
            &&& q.z() == z
            &&& q.face_bits() == face.bits()
            &&& q.width_bits() == width - 1
            &&& q.height_bits() == height - 1
            &&& q.material_bits() == material.bits()
        }),
{
    lemma_attribute_fields(face.bits(), (width - 1) as u32, (height - 1) as u32, material.bits());
}

/// Packs one quad.
pub fn pack_quad(
    x: u32,
    y: u32,
    z: u32,
    face: Face,
    width: usize,
    height: usize,
    material: Material,
) -> (quad: Quad)
    requires
        valid_extent(width as nat, height as nat),
    ensures
        quad == quad_of(x, y, z, face, width as nat, height as nat, material),
        quad.face_bits() == face.bits(),
        quad.width_bits() == width - 1,
        quad.height_bits() == height - 1,
        quad.material_bits() == material.bits(),
{
    let word = face.code() | (((width as u32) - 1) << 3) | (((height as u32) - 1) << 8) | (
    material.code() << 17);
    proof {
        lemma_quad_fields(x, y, z, face, width as nat, height as nat, material);
    }
    Quad { packed: [x, y, z, word] }
}

/// The words of a sequence of quads, four per quad, in order.
pub open spec fn flatten_spec(quads: Seq<Quad>) -> Seq<u32>
    decreases quads.len(),
{
    if quads.len() == 0 {
        Seq::empty()
    } else {
        flatten_spec(quads.drop_last()) + quads.last().packed@
    }
}

/// Word `4 * i + j` of a flattened sequence is word `j` of quad `i`.
pub proof fn lemma_flatten_index(quads: Seq<Quad>)
    ensures
        flatten_spec(quads).len() == 4 * quads.len(),
        forall|i: int, j: int|
            0 <= i < quads.len() && 0 <= j < 4 ==> #[trigger] flatten_spec(quads)[4 * i + j]
                == quads[i].packed[j],
    decreases quads.len(),
{
    if quads.len() > 0 {
        lemma_flatten_index(quads.drop_last());
        assert forall|i: int, j: int| 0 <= i < quads.len() && 0 <= j < 4 implies #[trigger]
            flatten_spec(quads)[4 * i + j] == quads[i].packed[j] by {
            if i < quads.len() - 1 {
                assert(quads.drop_last()[i] == quads[i]);
            }
        }
    }
}

/// The quads that wire words hold, four words each.
pub open spec fn quads_of_words(words: Seq<u32>) -> Seq<Quad> {
    Seq::new(
        words.len() / 4,
        |i: int| Quad { packed: [words[4 * i], words[4 * i + 1], words[4 * i + 2], words[4 * i + 3]] },
    )
}

/// Reading flattened quads back gives the quads.
pub proof fn lemma_quads_of_flatten(quads: Seq<Quad>)
    ensures
        quads_of_words(flatten_spec(quads)) == quads,
{
    lemma_flatten_index(quads);
    let words = flatten_spec(quads);
    assert forall|i: int| 0 <= i < quads.len() implies #[trigger] quads_of_words(words)[i] == quads[i] by {
        let q = quads_of_words(words)[i];
        assert(words[4 * i + 0] == quads[i].packed[0]);
        assert(words[4 * i + 1] == quads[i].packed[1]);
        assert(words[4 * i + 2] == quads[i].packed[2]);
        assert(words[4 * i + 3] == quads[i].packed[3]);
        assert(q.packed =~= quads[i].packed);
    }
    assert(quads_of_words(words) =~= quads);
}

/// Flattens quads into the four-words-per-quad wire form.
pub fn flatten_quads(quads: Vec<Quad>) -> (words: Vec<u32>)
    requires
        4 * quads.len() <= usize::MAX,
    ensures
        words@ == flatten_spec(quads@),
{
    let mut words: Vec<u32> = Vec::new();
    let mut i: usize = 0;
    while i < quads.len()
        invariant
            i <= quads.len(),
            4 * quads.len() <= usize::MAX,
            words@ == flatten_spec(quads@.take(i as int)),
        decreases quads.len() - i,
    {
        let q = quads[i];
        words.push(q.packed[0]);
        words.push(q.packed[1]);
        words.push(q.packed[2]);
        words.push(q.packed[3]);
        proof {
            assert(quads@.take(i + 1).drop_last() =~= quads@.take(i as int));
            assert(q.packed@ =~= seq![q.packed[0], q.packed[1], q.packed[2], q.packed[3]]);
        }
        i = i + 1;
    }
    assert(quads@.take(quads.len() as int) =~= quads@);
    words
}

/// Splits wire words into quads; `None` when the word count is not a multiple of four.
pub fn unpack_quads(values: Vec<u32>) -> (quads: Option<Vec<Quad>>)
    ensures
        quads is None <==> values.len() % 4 != 0,
        quads matches Some(q) ==> {
            &&& 4 * q.len() == values.len()
            &&& forall|i: int, j: int|
                0 <= i < q.len() && 0 <= j < 4 ==> #[trigger] q@[i].packed[j] == values@[4 * i
                    + j]
        },
{
    if values.len() % 4 != 0 {
        return None;
    }
    let n = values.len() / 4;
    let mut quads: Vec<Quad> = Vec::new();
    let mut i: usize = 0;
    while i < n
        invariant
            n * 4 == values.len(),
            i <= n,
            quads.len() == i,
            forall|a: int, j: int|
                0 <= a < i && 0 <= j < 4 ==> #[trigger] quads@[a].packed[j] == values@[4 * a + j],
        decreases n - i,
    {
        let b = 4 * i;
        quads.push(Quad { packed: [values[b], values[b + 1], values[b + 2], values[b + 3]] });
        i = i + 1;
    }
    Some(quads)
}

/// Unpacking the flattened words of some quads gives back those quads.
pub proof fn lemma_unpack_flatten(quads: Seq<Quad>, words: Seq<u32>, back: Seq<Quad>)
    requires
        words == flatten_spec(quads),
        4 * back.len() == words.len(),
        forall|i: int, j: int|
            0 <= i < back.len() && 0 <= j < 4 ==> #[trigger] back[i].packed[j] == words[4 * i + j],
    ensures
        back.len() == quads.len(),
        forall|i: int| 0 <= i < quads.len() ==> #[trigger] back[i].same_as(quads[i]),
{
    lemma_flatten_index(quads);
    assert forall|i: int| 0 <= i < quads.len() implies #[trigger] back[i].same_as(quads[i]) by {
        assert(back[i].packed[0] == words[4 * i + 0]);
        assert(back[i].packed[1] == words[4 * i + 1]);
        assert(back[i].packed[2] == words[4 * i + 2]);
        assert(back[i].packed[3] == words[4 * i + 3]);
    }
}

/// Flattening the quads unpacked from some words gives back those words.
pub proof fn lemma_flatten_unpack(words: Seq<u32>, quads: Seq<Quad>)
    requires
        4 * quads.len() == words.len(),
        forall|i: int, j: int|
            0 <= i < quads.len() && 0 <= j < 4 ==> #[trigger] quads[i].packed[j] == words[4 * i
                + j],
    ensures
        flatten_spec(quads) == words,
{
    lemma_flatten_index(quads);
    assert forall|k: int| 0 <= k < words.len() implies #[trigger] flatten_spec(quads)[k]
        == words[k] by {
        let i = k / 4;
        let j = k % 4;
        assert(k == 4 * i + j);
        assert(flatten_spec(quads)[4 * i + j] == quads[i].packed[j]);
    }
    assert(flatten_spec(quads) =~= words);
}

} // verus!
