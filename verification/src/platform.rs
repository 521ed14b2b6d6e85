//! Plain values that the back-ends hand to their platform libraries
//! (Direct3D texture flags, Direct2D fill modes, OpenType tags), and the
//! back-ends' stateless text and image types.

use vstd::prelude::*;
use vstd::string::StringSliceAdditionalSpecFns;

verus! {

/// `D3D11_USAGE_DEFAULT`.
pub const D3D11_USAGE_DEFAULT: u32 = 0;

/// `D3D11_USAGE_STAGING`.
pub const D3D11_USAGE_STAGING: u32 = 3;

/// `D3D11_BIND_SHADER_RESOURCE`.
pub const D3D11_BIND_SHADER_RESOURCE: u32 = 0x8;

/// `D3D11_BIND_RENDER_TARGET`.
pub const D3D11_BIND_RENDER_TARGET: u32 = 0x20;

/// `D3D11_CPU_ACCESS_READ`.
pub const D3D11_CPU_ACCESS_READ: u32 = 0x20000;

/// What a Direct3D texture is created for: to be rendered into, or to be
/// read back by the CPU.
#[derive(Clone, Copy, Debug, PartialEq, Eq, Structural)]
pub enum TextureMode {
    Target,
    Read,
}

impl TextureMode {
    pub fn usage(&self) -> (u: u32)
        ensures
            u == (match self {
                TextureMode::Target => D3D11_USAGE_DEFAULT,
                TextureMode::Read => D3D11_USAGE_STAGING,
            }),
    {
        match self {
            TextureMode::Target => D3D11_USAGE_DEFAULT,
            TextureMode::Read => D3D11_USAGE_STAGING,
        }
    }

    pub fn bind_flags(&self) -> (f: u32)
        ensures
            f == (match self {
                TextureMode::Target => D3D11_BIND_SHADER_RESOURCE | D3D11_BIND_RENDER_TARGET,
                TextureMode::Read => 0,
            }),
    {
        match self {
            TextureMode::Target => D3D11_BIND_SHADER_RESOURCE | D3D11_BIND_RENDER_TARGET,
            TextureMode::Read => 0,
        }
    }

    pub fn cpu_access_flags(&self) -> (f: u32)
        ensures
            f == (match self {
                TextureMode::Target => 0,
                TextureMode::Read => D3D11_CPU_ACCESS_READ,
            }),
    {
        match self {
            TextureMode::Target => 0,
            TextureMode::Read => D3D11_CPU_ACCESS_READ,
        }
    }
}

/// How the inside of a path is decided.
#[derive(Clone, Copy, Debug, PartialEq, Eq, Structural)]
pub enum FillRule {
    EvenOdd,
    NonZero,
}

/// `D2D1_FILL_MODE_ALTERNATE`.
pub const D2D1_FILL_MODE_ALTERNATE: u32 = 0;

/// `D2D1_FILL_MODE_WINDING`.
pub const D2D1_FILL_MODE_WINDING: u32 = 1;

/// The Direct2D fill mode of a fill rule: even-odd is "alternate", non-zero
/// is "winding".
pub fn fill_mode(rule: FillRule) -> (m: u32)
    ensures
        m == (match rule {
            FillRule::EvenOdd => D2D1_FILL_MODE_ALTERNATE,
            FillRule::NonZero => D2D1_FILL_MODE_WINDING,
        }),
{
    match rule {
        FillRule::EvenOdd => D2D1_FILL_MODE_ALTERNATE,
        FillRule::NonZero => D2D1_FILL_MODE_WINDING,
    }
}

/// An OpenType tag: four bytes, the first in the most significant place.
pub open spec fn opentype_tag(b: Seq<u8>) -> int {
    b[0] * 0x100_0000 + b[1] * 0x1_0000 + b[2] * 0x100 + b[3]
}

/// The OpenType tag whose four bytes are the first four bytes of `raw`
/// (such as `wght`, the weight axis of variable fonts).
pub fn make_opentype_tag(raw: &str) -> (t: u32)
    requires
        raw.spec_bytes().len() >= 4,
    ensures
        t == opentype_tag(raw.spec_bytes()),
{
    let b = raw.as_bytes();
    let (b0, b1, b2, b3) = (b[0] as u32, b[1] as u32, b[2] as u32, b[3] as u32);
    assert((b0 << 24) | (b1 << 16) | (b2 << 8) | b3 == b0 * 0x100_0000 + b1 * 0x1_0000 + b2
        * 0x100 + b3) by (bit_vector)
        requires
            b0 < 256 && b1 < 256 && b2 < 256 && b3 < 256,
    ;
    (b0 << 24) | (b1 << 16) | (b2 << 8) | b3
}

/// The text factory of the pathfinder back-end, which keeps no state.
#[derive(Clone, Copy, Debug)]
pub struct PfText;

/// The image type of the skia back-end, which keeps no data.
#[derive(Clone, Copy, Debug)]
pub struct SkiaImage;

/// The text factory of the skia back-end's simple text layouts.
#[derive(Clone, Copy, Debug)]
pub struct SkiaSimpleText;

/// The text factory of the skia back-end.
#[derive(Clone, Copy, Debug)]
pub struct SkiaText;

impl SkiaText {
    pub fn new() -> (t: Self) {
        SkiaText
    }
}

} // verus!
