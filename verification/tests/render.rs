use hephae::render::queue::drawers_to_draw;
use hephae::render::batch::{plan_batches, Batch, PhaseEntry};
use hephae::render::view::{ShaderDef, Tonemapping, ViewKey};

#[test]
fn batches_merge_equal_keys() {
    let source: Vec<u32> = (0..12).collect();
    let entries = vec![
        PhaseEntry::Request { start: 0, end: 3, key: 7 },
        PhaseEntry::Request { start: 3, end: 6, key: 7 },
        PhaseEntry::NoRequest,
        PhaseEntry::Request { start: 6, end: 9, key: 7 },
        PhaseEntry::Request { start: 9, end: 12, key: 8 },
    ];
    let plan = plan_batches(&entries, &source);
    assert_eq!(plan.indices, source);
    assert_eq!(
        plan.batches,
        vec![
            Batch { item: 0, key: 7, start: 0, end: 9, items: 3 },
            Batch { item: 4, key: 8, start: 9, end: 12, items: 1 },
        ]
    );
}

#[test]
fn missing_drawer_ends_batch() {
    let source = vec![5, 6, 7, 8];
    let entries = vec![
        PhaseEntry::Request { start: 2, end: 4, key: 1 },
        PhaseEntry::NoDrawer,
        PhaseEntry::Request { start: 0, end: 2, key: 1 },
    ];
    let plan = plan_batches(&entries, &source);
    assert_eq!(plan.indices, vec![7, 8, 5, 6]);
    assert_eq!(
        plan.batches,
        vec![
            Batch { item: 0, key: 1, start: 0, end: 2, items: 1 },
            Batch { item: 2, key: 1, start: 2, end: 4, items: 1 },
        ]
    );
}

#[test]
fn no_requests_no_batches() {
    let plan = plan_batches(&vec![PhaseEntry::NoDrawer, PhaseEntry::NoRequest], &vec![1, 2]);
    assert!(plan.indices.is_empty());
    assert!(plan.batches.is_empty());
}

#[test]
fn view_key_ignores_tonemapping_in_hdr() {
    let ldr = ViewKey::new(false, 4, Some(Tonemapping::TonyMcMapface), true, 9u32);
    assert_eq!(ldr.msaa, 2);
    assert_eq!(ldr.tonemapping, Some(Tonemapping::TonyMcMapface));
    assert!(ldr.dither);
    assert_eq!(ldr.sample_count(), 4);
    let hdr = ViewKey::new(true, 1, Some(Tonemapping::AgX), true, 9u32);
    assert_eq!(hdr.msaa, 0);
    assert_eq!(hdr.tonemapping, None);
    assert!(!hdr.dither);
    assert_eq!(hdr.sample_count(), 1);
}

#[test]
fn shader_defs_follow_tonemapping() {
    let key = ViewKey::new(false, 1, Some(Tonemapping::Reinhard), true, ());
    let defs = key.shader_defs();
    assert_eq!(
        defs,
        vec![
            ShaderDef::TonemapInShader,
            ShaderDef::LutTextureBinding(1),
            ShaderDef::LutSamplerBinding(2),
            ShaderDef::Method(Tonemapping::Reinhard),
            ShaderDef::DebandDither,
        ]
    );
    let names: Vec<&str> = defs.iter().map(|d| d.name()).collect();
    assert_eq!(
        names,
        vec![
            "TONEMAP_IN_SHADER",
            "TONEMAPPING_LUT_TEXTURE_BINDING_INDEX",
            "TONEMAPPING_LUT_SAMPLER_BINDING_INDEX",
            "TONEMAP_METHOD_REINHARD",
            "DEBAND_DITHER",
        ]
    );
    assert!(ViewKey::new(false, 1, None, true, ()).shader_defs().is_empty());
    assert_eq!(Tonemapping::Identity.method_define(), "TONEMAP_METHOD_NONE");
}

#[test]
fn drawers_are_drawn_once_in_first_seen_order() {
    let views = vec![vec![4, 1, 4], vec![], vec![2, 1, 9], vec![9, 4]];
    assert_eq!(drawers_to_draw(&views), vec![4, 1, 2, 9]);
    assert_eq!(drawers_to_draw(&vec![]), Vec::<u32>::new());
}
