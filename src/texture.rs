//! Preparing decoded image pixels for upload: choosing the GPU texture
//! format and widening three-channel data to four channels.
use vstd::prelude::*;

verus! {

/// Pixel layouts that the importer hands over.
#[derive(Clone, Copy, Debug, PartialEq, Eq)]
pub enum PixelFormat {
    R8,
    R8G8,
    R8G8B8,
    R8G8B8A8,
    B8G8R8,
    B8G8R8A8,
    R16,
    R16G16,
    R16G16B16,
    R16G16B16A16,
}

/// Texture formats that the device is asked for.
#[derive(Clone, Copy, Debug, PartialEq, Eq)]
pub enum GpuTextureFormat {
    R8Unorm,
    Rg8Unorm,
    Rgba8Unorm,
    Bgra8Unorm,
    R16Uint,
    Rg16Uint,
    Rgba16Uint,
}

/// The padding appended to every pixel when widening.
pub open spec fn padding(from: nat, to: nat) -> Seq<u8> {
    Seq::new((to - from) as nat, |i: int| 255u8)
}

/// `data` cut into pixels of `from` bytes (the last one possibly shorter),
/// each followed by `to - from` bytes of 255.
pub open spec fn extended(data: Seq<u8>, from: nat, to: nat) -> Seq<u8>
    decreases data.len(),
{
    if data.len() == 0 || from == 0 {
        Seq::empty()
    } else if data.len() <= from {
        data + padding(from, to)
    } else {
        data.take(from as int) + padding(from, to) + extended(data.skip(from as int), from, to)
    }
}

/// Appends `to_size - from_size` bytes of 255 after every `from_size` bytes
/// of `data` (and after a shorter last piece).
pub fn extend_data_color(data: &[u8], from_size: usize, to_size: usize) -> (r: Vec<u8>)
    requires
        0 < from_size < to_size,
    ensures
        r@ == extended(data@, from_size as nat, to_size as nat),
{
    let mut out: Vec<u8> = Vec::new();
    let len = data.len();
    let mut i: usize = 0;
    proof {
        assert(data@.skip(0) =~= data@);
        assert(out@ + extended(data@, from_size as nat, to_size as nat) =~= extended(data@, from_size as nat, to_size as nat));
    }
    while i < len
        invariant
            0 < from_size < to_size,
            len == data@.len(),
            i <= len,
            out@ + extended(data@.skip(i as int), from_size as nat, to_size as nat)
                == extended(data@, from_size as nat, to_size as nat),
        decreases len - i,
    {
        let ghost rest = data@.skip(i as int);
        let end = if len - i <= from_size { len } else { i + from_size };
        let ghost out0 = out@;
        let mut j = i;
        while j < end
            invariant
                i <= j <= end,
                end <= len,
                len == data@.len(),
                out@ == out0 + data@.subrange(i as int, j as int),
            decreases end - j,
        {
            out.push(data[j]);
            proof {
                assert(data@.subrange(i as int, j + 1) =~= data@.subrange(i as int, j as int).push(data@[j as int]));
            }
            j += 1;
        }
        let ghost out1 = out@;
        let mut k: usize = from_size;
        while k < to_size
            invariant
                from_size <= k <= to_size,
                out@ == out1 + padding(from_size as nat, k as nat),
            decreases to_size - k,
        {
            out.push(255u8);
            proof {
                assert(padding(from_size as nat, (k + 1) as nat) =~= padding(from_size as nat, k as nat).push(255u8));
            }
            k += 1;
        }
        proof {
            let f = from_size as nat;
            let t = to_size as nat;
            if len - i <= from_size {
                assert(rest =~= data@.subrange(i as int, end as int));
                assert(data@.skip(end as int) =~= Seq::<u8>::empty());
                assert(extended(rest, f, t) == rest + padding(f, t));
            } else {
                assert(rest.take(from_size as int) =~= data@.subrange(i as int, end as int));
                assert(rest.skip(from_size as int) =~= data@.skip(end as int));
                assert(extended(rest, f, t) == rest.take(from_size as int) + padding(f, t) + extended(rest.skip(from_size as int), f, t));
            }
            assert(out@ + extended(data@.skip(end as int), f, t)
                =~= out0 + extended(rest, f, t));
        }
        i = end;
    }
    proof {
        assert(data@.skip(len as int) =~= Seq::<u8>::empty());
        assert(out@ + Seq::<u8>::empty() =~= out@);
    }
    out
}

pub open spec fn gpu_format(f: PixelFormat) -> GpuTextureFormat {
    match f {
        PixelFormat::R8 => GpuTextureFormat::R8Unorm,
        PixelFormat::R8G8 => GpuTextureFormat::Rg8Unorm,
        PixelFormat::R8G8B8 | PixelFormat::R8G8B8A8 => GpuTextureFormat::Rgba8Unorm,
        PixelFormat::B8G8R8 | PixelFormat::B8G8R8A8 => GpuTextureFormat::Bgra8Unorm,
        PixelFormat::R16 => GpuTextureFormat::R16Uint,
        PixelFormat::R16G16 => GpuTextureFormat::Rg16Uint,
        PixelFormat::R16G16B16 | PixelFormat::R16G16B16A16 => GpuTextureFormat::Rgba16Uint,
    }
}

/// Bytes per pixel before and after widening, for the three-channel formats
/// that the device has no texture format for.
pub open spec fn widening(f: PixelFormat) -> Option<(nat, nat)> {
    match f {
        PixelFormat::R8G8B8 | PixelFormat::B8G8R8 => Some((3, 4)),
        PixelFormat::R16G16B16 => Some((6, 8)),
        _ => None,
    }
}

/// The texture format for `format` and, where the pixels must be widened
/// first, the widened bytes (`None`: upload `pixels` as they are).
pub fn prepare_texture(format: PixelFormat, pixels: &[u8]) -> (r: (GpuTextureFormat, Option<Vec<u8>>))
    ensures
        r.0 == gpu_format(format),
        r.1.is_some() == widening(format).is_some(),
        r.1.is_some() ==> r.1.unwrap()@ == extended(pixels@, widening(format).unwrap().0, widening(format).unwrap().1),
{
    match format {
        PixelFormat::R8 => (GpuTextureFormat::R8Unorm, None),
        PixelFormat::R8G8 => (GpuTextureFormat::Rg8Unorm, None),
        PixelFormat::R8G8B8 => (GpuTextureFormat::Rgba8Unorm, Some(extend_data_color(pixels, 3, 4))),
        PixelFormat::R8G8B8A8 => (GpuTextureFormat::Rgba8Unorm, None),
        PixelFormat::B8G8R8 => (GpuTextureFormat::Bgra8Unorm, Some(extend_data_color(pixels, 3, 4))),
        PixelFormat::B8G8R8A8 => (GpuTextureFormat::Bgra8Unorm, None),
        PixelFormat::R16 => (GpuTextureFormat::R16Uint, None),
        PixelFormat::R16G16 => (GpuTextureFormat::Rg16Uint, None),
        PixelFormat::R16G16B16 => (GpuTextureFormat::Rgba16Uint, Some(extend_data_color(pixels, 6, 8))),
        PixelFormat::R16G16B16A16 => (GpuTextureFormat::Rgba16Uint, None),
    }
}

} // verus!
