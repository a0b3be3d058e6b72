use vstd::prelude::*;

verus! {

/// Picks the sprite atlas for the requested output: the animated path
/// uses its own skin, the still path the full one. The caller supplies
/// both atlases as encoded bytes.
pub fn load_textures(use_gif: &bool, skin_full: &[u8], skin_gif: &[u8]) -> (r: Vec<u8>)
    ensures
        *use_gif ==> r@ == skin_gif@,
        !*use_gif ==> r@ == skin_full@,
{
    let src: &[u8] = if *use_gif {
        skin_gif
    } else {
        skin_full
    };
    let mut out: Vec<u8> = Vec::new();
    let n = src.len();
    for i in 0..n
        invariant
            n == src@.len(),
            out@ =~= src@.subrange(0, i as int),
    {
        out.push(src[i]);
        proof {
            assert(out@ =~= src@.subrange(0, i + 1));
        }
    }
    proof {
        assert(src@.subrange(0, n as int) =~= src@);
    }
    out
}

} // verus!
