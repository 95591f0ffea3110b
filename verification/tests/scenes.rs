use synesthesia::scenes::{switch_target, SceneId};

#[test]
fn switching_to_the_running_scene_rebuilds_nothing() {
    assert_eq!(switch_target(SceneId::Gravity, SceneId::Gravity), None);
    assert_eq!(switch_target(SceneId::Cymatics, SceneId::Theremin), Some(SceneId::Theremin));
    assert_eq!(switch_target(SceneId::FluidDrum, SceneId::Cymatics), Some(SceneId::Cymatics));
}
