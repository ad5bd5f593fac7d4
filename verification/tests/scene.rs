use glam::{vec3, Vec3};
use vex::scene::{model_index, plan_scene, SceneBuffers, SceneError, WeaponDef};

fn names(list: &[&str]) -> Vec<String> {
    list.iter().map(|s| s.to_string()).collect()
}

#[test]
fn scene_bakes_transforms_ranges_and_tint() {
    // The placement side of baking: two instances of a one-edge triangle.
    let plan = plan_scene(&names(&["tri"]), &names(&["tri", "tri"]), &None).unwrap();
    assert_eq!(plan.instance_models, vec![0, 0]);
    assert!(plan.weapon_model.is_none());

    let model_vertices = [vec3(0.0, 0.0, 0.0), vec3(1.0, 0.0, 0.0), vec3(0.0, 1.0, 0.0)];
    let model_indices = vec![0, 1, 2];
    let mut baked: SceneBuffers<(Vec3, Vec3), Vec3> = SceneBuffers::new();
    for (k, &model) in plan.instance_models.iter().enumerate() {
        let (offset, scale) = if k == 0 { (Vec3::ZERO, 1.0) } else { (vec3(10.0, 0.0, 0.0), 2.0) };
        let world: Vec<Vec3> = model_vertices.iter().map(|&v| v * scale + offset).collect();
        let segments = vec![(world[0], world[1])];
        baked.push_instance(model, segments, world, &model_indices);
    }
    assert_eq!(baked.instances.len(), 2);
    assert_eq!(baked.segments.len(), 2);
    assert_eq!(baked.indices.len(), 6);
    assert_eq!(baked.instances[1].segments, 1..2);
    assert_eq!(baked.instances[1].occluder_indices, 3..6);
    let s = baked.segments[1];
    assert!(s.0.abs_diff_eq(vec3(10.0, 0.0, 0.0), 1e-5));
    assert!(s.1.abs_diff_eq(vec3(12.0, 0.0, 0.0), 1e-5));
}

#[test]
fn unknown_model_reference_fails_clearly() {
    let Err(err) = plan_scene(&names(&[]), &names(&["ghost"]), &None) else {
        panic!("expected unknown-model error");
    };
    match err {
        SceneError::UnknownInstanceModel(name) => assert!(name.contains("ghost")),
        other => panic!("wrong error {other:?}"),
    }
}

#[test]
fn first_unknown_instance_is_reported() {
    let err = plan_scene(&names(&["a", "b"]), &names(&["b", "x", "y"]), &None);
    assert!(matches!(err, Err(SceneError::UnknownInstanceModel(n)) if n == "x"));
}

#[test]
fn weapon_is_resolved_after_instances() {
    let weapon = Some(WeaponDef { model: "sword".to_string() });
    let plan = plan_scene(&names(&["corridor", "sword"]), &names(&["corridor"]), &weapon).unwrap();
    assert_eq!(plan.weapon_model, Some(1));

    let missing = Some(WeaponDef { model: "axe".to_string() });
    let err = plan_scene(&names(&["corridor"]), &names(&["corridor"]), &missing);
    assert!(matches!(err, Err(SceneError::UnknownWeaponModel(n)) if n == "axe"));

    // An unknown instance is reported before an unknown weapon.
    let err = plan_scene(&names(&["corridor"]), &names(&["ghost"]), &missing);
    assert!(matches!(err, Err(SceneError::UnknownInstanceModel(_))));
}

#[test]
fn model_index_finds_names() {
    let list = names(&["corridor", "plant", "sword"]);
    assert_eq!(model_index(&list, &"plant".to_string()), Some(1));
    assert_eq!(model_index(&list, &"Plant".to_string()), None);
}

#[test]
fn instance_slices_tile_the_buffers() {
    let mut baked: SceneBuffers<u8, u8> = SceneBuffers::new();
    baked.push_instance(0, vec![1, 2, 3], vec![0, 0], &vec![0, 1, 1]);
    baked.push_instance(1, vec![], vec![0], &vec![0]);
    baked.push_instance(0, vec![4], vec![0, 0, 0], &vec![2, 0, 1]);
    assert_eq!(baked.segments, vec![1, 2, 3, 4]);
    assert_eq!(baked.indices, vec![0, 1, 1, 2, 5, 3, 4]);
    let slices: Vec<_> = baked.instances.iter().map(|i| (i.segments.clone(), i.occluder_indices.clone(), i.model)).collect();
    assert_eq!(slices, vec![(0..3, 0..3, 0), (3..3, 3..4, 1), (3..4, 4..7, 0)]);
}
