use superdupervoxels::blocks::{
    atlas_readiness, load_block_textures, setup_registry, texture_probe_paths, AtlasReadiness,
    BlockData, BlockRegistry, BlockTextures, FaceSlot, NamespacedId, TextureLoad,
};

fn block(ns: &str, name: &str, textures: BlockTextures, solid: bool) -> BlockData {
    BlockData { id: NamespacedId::new(ns, name), textures, is_solid: solid }
}

#[test]
fn namespaced_ids_compare_both_parts() {
    let a = NamespacedId::new("superdupervoxels", "dirt");
    assert_eq!(a.namespace, "superdupervoxels");
    assert_eq!(a.name, "dirt");
    assert!(a.same_as(&NamespacedId::new("superdupervoxels", "dirt")));
    assert!(!a.same_as(&NamespacedId::new("other", "dirt")));
    assert!(!a.same_as(&NamespacedId::new("superdupervoxels", "grass")));
}

#[test]
fn ids_are_handed_out_in_order() {
    let mut r = BlockRegistry::default();
    assert_eq!(r.register_block(block("a", "x", BlockTextures::Untextured, false)), 0);
    assert_eq!(r.register_block(block("a", "y", BlockTextures::Untextured, true)), 1);
    assert_eq!(r.next_internal_id, 2);
    assert_eq!(r.get_internal_id(&NamespacedId::new("a", "x")), Some(0));
    assert_eq!(r.get_internal_id(&NamespacedId::new("a", "y")), Some(1));
    assert_eq!(r.get_internal_id(&NamespacedId::new("b", "x")), None);
    assert_eq!(r.get_data_by_internal(1).unwrap().id.name, "y");
    assert!(r.get_data_by_internal(1).unwrap().is_solid);
    assert!(r.get_data_by_internal(2).is_none());
}

#[test]
fn registering_a_name_again_moves_it_to_the_new_id() {
    let mut r = BlockRegistry::default();
    r.register_block(block("a", "x", BlockTextures::Untextured, false));
    r.register_block(block("a", "y", BlockTextures::Untextured, false));
    let id = r.register_block(block("a", "x", BlockTextures::All("p".to_string()), true));
    assert_eq!(id, 2);
    assert_eq!(r.get_internal_id(&NamespacedId::new("a", "x")), Some(2));
    assert!(!r.get_data_by_internal(0).unwrap().is_solid);
    assert!(r.get_data_by_internal(2).unwrap().is_solid);
}

#[test]
fn builtin_blocks_get_the_first_ids() {
    let mut r = BlockRegistry::default();
    let dirt = BlockTextures::All("d".to_string());
    let grass = BlockTextures::Sided { top: "t".to_string(), bottom: "b".to_string(), side: "s".to_string() };
    setup_registry(&mut r, dirt, grass);
    assert_eq!(r.next_internal_id, 3);
    assert_eq!(r.get_internal_id(&NamespacedId::new("superdupervoxels", "air")), Some(0));
    assert_eq!(r.get_internal_id(&NamespacedId::new("superdupervoxels", "dirt")), Some(1));
    assert_eq!(r.get_internal_id(&NamespacedId::new("superdupervoxels", "grass")), Some(2));
    let air = r.get_data_by_internal(0).unwrap();
    assert!(!air.is_solid);
    assert!(matches!(air.textures, BlockTextures::Untextured));
    assert!(r.get_data_by_internal(1).unwrap().is_solid);
    assert_eq!(r.all_texture_paths(), vec!["d", "t", "b", "s"]);
}

#[test]
fn texture_layout_follows_the_files_present() {
    match load_block_textures("superdupervoxels", "dirt", true, true) {
        BlockTextures::All(p) => assert_eq!(p, "superdupervoxels/textures/block/dirt/all.png"),
        other => panic!("unexpected {:?}", other),
    }
    match load_block_textures("superdupervoxels", "grass", false, true) {
        BlockTextures::Sided { top, bottom, side } => {
            assert_eq!(top, "superdupervoxels/textures/block/grass/top.png");
            assert_eq!(bottom, "superdupervoxels/textures/block/grass/bottom.png");
            assert_eq!(side, "superdupervoxels/textures/block/grass/side.png");
        }
        other => panic!("unexpected {:?}", other),
    }
    assert!(matches!(load_block_textures("x", "y", false, false), BlockTextures::Untextured));
    let (all, top) = texture_probe_paths("ns", "stone");
    assert_eq!(all, "ns/textures/block/stone/all.png");
    assert_eq!(top, "ns/textures/block/stone/top.png");
}

#[test]
fn faces_pick_their_texture() {
    let sided = BlockTextures::Sided { top: "t".to_string(), bottom: "b".to_string(), side: "s".to_string() };
    assert_eq!(sided.face_texture(FaceSlot::Top).unwrap(), "t");
    assert_eq!(sided.face_texture(FaceSlot::Bottom).unwrap(), "b");
    assert_eq!(sided.face_texture(FaceSlot::Side).unwrap(), "s");
    let all = BlockTextures::All("a".to_string());
    assert_eq!(all.face_texture(FaceSlot::Bottom).unwrap(), "a");
    assert!(BlockTextures::Untextured.face_texture(FaceSlot::Top).is_none());
    assert_eq!(sided.texture_paths(), vec!["t", "b", "s"]);
    assert!(BlockTextures::Untextured.texture_paths().is_empty());
}

#[test]
fn atlas_waits_for_every_texture() {
    assert_eq!(atlas_readiness(&vec![]), AtlasReadiness::Ready);
    assert_eq!(atlas_readiness(&vec![TextureLoad::Loaded, TextureLoad::Loaded]), AtlasReadiness::Ready);
    assert_eq!(atlas_readiness(&vec![TextureLoad::Loaded, TextureLoad::Pending, TextureLoad::Failed]), AtlasReadiness::Wait);
    assert_eq!(atlas_readiness(&vec![TextureLoad::Loaded, TextureLoad::Failed, TextureLoad::Pending]), AtlasReadiness::Failed(1));
}

#[test]
fn clones_keep_every_field() {
    let d = block("ns", "n", BlockTextures::Sided { top: "t".into(), bottom: "b".into(), side: "s".into() }, true);
    let c = d.clone();
    assert!(c.id.same_as(&d.id));
    assert!(c.is_solid);
    assert_eq!(c.textures.texture_paths(), vec!["t", "b", "s"]);
    let id = NamespacedId::new("x", "y").clone();
    assert_eq!((id.namespace.as_str(), id.name.as_str()), ("x", "y"));
}
