//! How a camera view specializes the vertex pipeline: its key, and the shader
//! definitions and multisampling that the key selects.

use vstd::prelude::*;

verus! {

/// Tonemapping methods a view may use.
#[derive(Clone, Copy, Debug, PartialEq, Eq, Structural, Hash)]
pub enum Tonemapping {
    /// No tonemapping curve (`TONEMAP_METHOD_NONE`).
    Identity,
    /// Reinhard per channel.
    Reinhard,
    /// Reinhard on luminance.
    ReinhardLuminance,
    /// Fitted ACES.
    AcesFitted,
    /// AgX.
    AgX,
    /// The "somewhat boring" display transform.
    SomewhatBoringDisplayTransform,
    /// Tony McMapface.
    TonyMcMapface,
    /// Blender Filmic.
    BlenderFilmic,
}

impl Tonemapping {
    /// The shader definition that selects this method.
    pub fn method_define(&self) -> (r: &'static str)
        ensures
            r@ == tonemap_method_name(*self)@,
    {
        match self {
            Tonemapping::Identity => "TONEMAP_METHOD_NONE",
            Tonemapping::Reinhard => "TONEMAP_METHOD_REINHARD",
            Tonemapping::ReinhardLuminance => "TONEMAP_METHOD_REINHARD_LUMINANCE",
            Tonemapping::AcesFitted => "TONEMAP_METHOD_ACES_FITTED",
            Tonemapping::AgX => "TONEMAP_METHOD_AGX",
            Tonemapping::SomewhatBoringDisplayTransform => "TONEMAP_METHOD_SOMEWHAT_BORING_DISPLAY_TRANSFORM",
            Tonemapping::TonyMcMapface => "TONEMAP_METHOD_TONY_MC_MAPFACE",
            Tonemapping::BlenderFilmic => "TONEMAP_METHOD_BLENDER_FILMIC",
        }
    }
}

/// The name of the shader definition that selects a tonemapping method.
pub open spec fn tonemap_method_name(t: Tonemapping) -> &'static str {
    match t {
        Tonemapping::Identity => "TONEMAP_METHOD_NONE",
        Tonemapping::Reinhard => "TONEMAP_METHOD_REINHARD",
        Tonemapping::ReinhardLuminance => "TONEMAP_METHOD_REINHARD_LUMINANCE",
        Tonemapping::AcesFitted => "TONEMAP_METHOD_ACES_FITTED",
        Tonemapping::AgX => "TONEMAP_METHOD_AGX",
        Tonemapping::SomewhatBoringDisplayTransform => "TONEMAP_METHOD_SOMEWHAT_BORING_DISPLAY_TRANSFORM",
        Tonemapping::TonyMcMapface => "TONEMAP_METHOD_TONY_MC_MAPFACE",
        Tonemapping::BlenderFilmic => "TONEMAP_METHOD_BLENDER_FILMIC",
    }
}

/// A shader definition the pipeline is specialized with.
#[derive(Clone, Copy, Debug, PartialEq, Eq, Structural)]
pub enum ShaderDef {
    /// `TONEMAP_IN_SHADER`: tonemapping happens in the vertex shader.
    TonemapInShader,
    /// `TONEMAPPING_LUT_TEXTURE_BINDING_INDEX`, with the binding.
    LutTextureBinding(u32),
    /// `TONEMAPPING_LUT_SAMPLER_BINDING_INDEX`, with the binding.
    LutSamplerBinding(u32),
    /// The definition that selects a tonemapping method.
    Method(Tonemapping),
    /// `DEBAND_DITHER`: deband dithering is on.
    DebandDither,
}

impl ShaderDef {
    /// The definition's name.
    pub fn name(&self) -> (r: &'static str)
        ensures
            r@ == (match *self {
                ShaderDef::TonemapInShader => "TONEMAP_IN_SHADER"@,
                ShaderDef::LutTextureBinding(_) => "TONEMAPPING_LUT_TEXTURE_BINDING_INDEX"@,
                ShaderDef::LutSamplerBinding(_) => "TONEMAPPING_LUT_SAMPLER_BINDING_INDEX"@,
                ShaderDef::Method(t) => tonemap_method_name(t)@,
                ShaderDef::DebandDither => "DEBAND_DITHER"@,
            }),
    {
        match self {
            ShaderDef::TonemapInShader => "TONEMAP_IN_SHADER",
            ShaderDef::LutTextureBinding(_) => "TONEMAPPING_LUT_TEXTURE_BINDING_INDEX",
            ShaderDef::LutSamplerBinding(_) => "TONEMAPPING_LUT_SAMPLER_BINDING_INDEX",
            ShaderDef::Method(t) => t.method_define(),
            ShaderDef::DebandDither => "DEBAND_DITHER",
        }
    }
}

/// The properties of a camera view that the pipeline is specialized on.
#[derive(Clone, Copy, Debug, PartialEq, Eq, Hash)]
pub struct ViewKey<S> {
    /// Whether the view renders in HDR.
    pub hdr: bool,
    /// Multisample count, as its number of trailing zero bits.
    pub msaa: u8,
    /// The tonemapping method, where tonemapping is on.
    pub tonemapping: Option<Tonemapping>,
    /// Whether deband dithering is on.
    pub dither: bool,
    /// The pipeline shader.
    pub shader: S,
}

/// The shader definitions a view key selects: with tonemapping on, that it
/// happens in the shader, the bindings of its lookup texture and sampler, its
/// method and, with dithering on, deband dithering; nothing otherwise.
pub open spec fn view_shader_defs(tonemapping: Option<Tonemapping>, dither: bool) -> Seq<ShaderDef> {
    match tonemapping {
        None => Seq::empty(),
        Some(t) => {
            let base = seq![
                ShaderDef::TonemapInShader,
                ShaderDef::LutTextureBinding(1),
                ShaderDef::LutSamplerBinding(2),
                ShaderDef::Method(t),
            ];
            if dither {
                base.push(ShaderDef::DebandDither)
            } else {
                base
            }
        },
    }
}

impl<S> ViewKey<S> {
    /// The key of a view: tonemapping and dithering apply only outside HDR.
    pub fn new(
        hdr: bool,
        msaa_samples: u32,
        tonemapping: Option<Tonemapping>,
        dither_enabled: bool,
        shader: S,
    ) -> (r: ViewKey<S>)
        ensures
            r.hdr == hdr,
            r.msaa == msaa_samples.trailing_zeros(),
            r.tonemapping == (if hdr {
                None
            } else {
                tonemapping
            }),
            r.dither == (!hdr && dither_enabled),
            r.shader == shader,
    {
        proof {
            vstd::std_specs::bits::axiom_u32_trailing_zeros(msaa_samples);
        }
        ViewKey {
            hdr,
            msaa: msaa_samples.trailing_zeros() as u8,
            tonemapping: if hdr {
                None
            } else {
                tonemapping
            },
            dither: !hdr && dither_enabled,
            shader,
        }
    }

    /// The shader definitions of the view, in order.
    pub fn shader_defs(&self) -> (r: Vec<ShaderDef>)
        ensures
            r@ == view_shader_defs(self.tonemapping, self.dither),
    {
        let mut defs = Vec::new();
        if let Some(t) = self.tonemapping {
            defs.push(ShaderDef::TonemapInShader);
            defs.push(ShaderDef::LutTextureBinding(1));
            defs.push(ShaderDef::LutSamplerBinding(2));
            defs.push(ShaderDef::Method(t));
            if self.dither {
                defs.push(ShaderDef::DebandDither);
            }
        }
        proof {
            assert(defs@ =~= view_shader_defs(self.tonemapping, self.dither));
        }
        defs
    }

    /// The multisample count: two to the power of `msaa`.
    pub fn sample_count(&self) -> (r: u32)
        requires
            self.msaa < 32,
        ensures
            r == vstd::arithmetic::power2::pow2(self.msaa as nat),
    {
        proof {
            vstd::arithmetic::power2::lemma2_to64();
            vstd::arithmetic::power2::lemma_pow2_strictly_increases(self.msaa as nat, 32);
            vstd::bits::lemma_u32_shl_is_mul(1, self.msaa as u32);
        }
        1u32 << self.msaa
    }
}

} // verus!
