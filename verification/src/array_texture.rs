use vstd::prelude::*;

verus! {

/// What to do with a requested array texture this frame.
#[derive(Clone, Copy, Debug, PartialEq, Eq, Structural)]
pub enum ArrayTextureStep {
    /// No layers were given: warn and skip it.
    Empty,
    /// Some layer image is not loaded yet: try again later.
    Waiting,
    /// The layers are compressed, which array textures do not support:
    /// warn and skip it.
    Compressed,
    /// Stack the layers into a texture of `depth` layers.
    Build { depth: u32 },
}

/// Decides about an array texture of `num_layers` layers, given whether
/// all of their images are loaded and whether the first one is compressed.
pub fn array_texture_step(num_layers: usize, all_available: bool, compressed: bool) -> (r: ArrayTextureStep)
    ensures
        r == (if num_layers == 0 {
            ArrayTextureStep::Empty
        } else if !all_available {
            ArrayTextureStep::Waiting
        } else if compressed {
            ArrayTextureStep::Compressed
        } else {
            ArrayTextureStep::Build { depth: num_layers as u32 }
        }),
{
    if num_layers == 0 {
        ArrayTextureStep::Empty
    } else if !all_available {
        ArrayTextureStep::Waiting
    } else if compressed {
        ArrayTextureStep::Compressed
    } else {
        ArrayTextureStep::Build { depth: num_layers as u32 }
    }
}

/// The bytes of the layers one after the other.
pub open spec fn stacked(layers: Seq<Seq<u8>>) -> Seq<u8>
    decreases layers.len(),
{
    if layers.len() == 0 {
        Seq::empty()
    } else {
        stacked(layers.drop_last()) + layers.last()
    }
}

/// The image data of an array texture: the data of its layers, in order.
pub fn stack_layers(layers: &[Vec<u8>]) -> (r: Vec<u8>)
    requires
        stacked(layers@.map_values(|l: Vec<u8>| l@)).len() <= usize::MAX,
    ensures
        r@ == stacked(layers@.map_values(|l: Vec<u8>| l@)),
{
    let ghost ls = layers@.map_values(|l: Vec<u8>| l@);
    let mut data: Vec<u8> = Vec::new();
    let mut k: usize = 0;
    while k < layers.len()
        invariant
            0 <= k <= layers@.len(),
            ls == layers@.map_values(|l: Vec<u8>| l@),
            stacked(ls).len() <= usize::MAX,
            data@ == stacked(ls.take(k as int)),
        decreases layers.len() - k,
    {
        proof {
            assert(ls.take(k + 1).drop_last() =~= ls.take(k as int));
            assert(ls.take(k + 1).last() == layers@[k as int]@);
            lemma_stacked_prefix_len(ls, k + 1);
        }
        let layer = &layers[k];
        let mut j: usize = 0;
        let ghost before = data@;
        while j < layer.len()
            invariant
                0 <= j <= layer@.len(),
                before.len() + layer@.len() <= usize::MAX,
                data@ == before + layer@.take(j as int),
            decreases layer.len() - j,
        {
            data.push(layer[j]);
            proof {
                assert(layer@.take(j + 1) =~= layer@.take(j as int).push(layer@[j as int]));
            }
            j += 1;
        }
        proof {
            assert(layer@.take(layer@.len() as int) =~= layer@);
        }
        k += 1;
    }
    proof {
        assert(ls.take(ls.len() as int) =~= ls);
    }
    data
}

/// A prefix of the layers stacks to no more bytes than all of them.
proof fn lemma_stacked_prefix_len(ls: Seq<Seq<u8>>, k: int)
    requires
        0 <= k <= ls.len(),
    ensures
        stacked(ls.take(k)).len() <= stacked(ls).len(),
    decreases ls.len() - k,
{
    if k < ls.len() {
        lemma_stacked_prefix_len(ls, k + 1);
        assert(ls.take(k + 1).drop_last() =~= ls.take(k));
    } else {
        assert(ls.take(k) =~= ls);
    }
}

} // verus!
