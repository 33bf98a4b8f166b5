use bevy_ecs::bundle::{BundleId, BundleInfo};
use bevy_ecs::component::ComponentId;
use bevy_ecs::condition::{
    non_send_resource_equals, non_send_resource_exists, non_send_resource_exists_and_equals,
    resource_equals, resource_exists, resource_exists_and_equals,
};
use bevy_ecs::descriptor::{reg_id_le, RegId};
use bevy_ecs::entity::Entity;
use bevy_ecs::fsm::{apply_state_transition, Fsm, OnEnter, OnExit, StateSchedule};
use bevy_ecs::input::ElementState;
use bevy_ecs::plugin_group::PluginGroupBuilder;

#[derive(Debug, Clone, PartialEq, Eq, Hash)]
enum Menu {
    Main,
    Settings,
    Game,
}

#[test]
fn fsm_applies_the_queued_transition() {
    let mut fsm = Fsm::new(Menu::Main);
    assert!(apply_state_transition(&mut fsm).is_empty());
    assert_eq!(fsm.current_state(), &Menu::Main);
    assert_eq!(fsm.queue_transition(Menu::Settings), None);
    assert_eq!(fsm.queue_transition(Menu::Game), Some(Menu::Settings));
    assert_eq!(fsm.next_state(), Some(&Menu::Game));
    let t = apply_state_transition(&mut fsm);
    assert_eq!(
        t,
        vec![
            StateSchedule::Exit(OnExit(Menu::Main)),
            StateSchedule::Enter(OnEnter(Menu::Game))
        ]
    );
    assert_eq!(fsm.current_state(), &Menu::Game);
    assert_eq!(fsm.previous_state(), Some(&Menu::Main));
    assert_eq!(fsm.next_state(), None);
    assert!(apply_state_transition(&mut fsm).is_empty());
}

#[test]
fn resource_conditions() {
    assert!(resource_exists::<u32>()(Some(&3)));
    assert!(!resource_exists::<u32>()(None));
    assert!(resource_equals(3u32)(&3));
    assert!(!resource_equals(3u32)(&4));
    assert!(resource_exists_and_equals(3u32)(Some(&3)));
    assert!(!resource_exists_and_equals(3u32)(Some(&4)));
    assert!(!resource_exists_and_equals(3u32)(None));
    assert!(non_send_resource_exists::<u8>()(Some(&1)));
    assert!(!non_send_resource_exists::<u8>()(None));
    assert!(non_send_resource_equals(1u8)(&1));
    assert!(!non_send_resource_exists_and_equals(1u8)(None));
    assert!(non_send_resource_exists_and_equals(1u8)(Some(&1)));
}

#[test]
fn bundle_info_keeps_its_components() {
    let info = BundleInfo::new(vec![ComponentId::new(4), ComponentId::new(2)], BundleId::new(7));
    assert_eq!(info.id(), BundleId::new(7));
    assert_eq!(info.id().index(), 7);
    assert_eq!(info.components(), &[ComponentId::new(4), ComponentId::new(2)]);
}

#[test]
fn entities_and_ids() {
    let e = Entity::from_raw(42);
    assert_eq!(e.index(), 42);
    assert_eq!(e.generation(), 0);
    assert_eq!(ComponentId::new(5).index(), 5);
    assert!(ElementState::Pressed.is_pressed());
    assert!(!ElementState::Released.is_pressed());
}

#[test]
fn registry_ids_order_systems_before_sets() {
    assert!(RegId::System(3).is_system());
    assert!(RegId::SystemSet(3).is_set());
    assert_eq!(RegId::System(0).to_str(), "system");
    assert_eq!(RegId::SystemSet(0).to_str(), "set");
    assert!(reg_id_le(RegId::System(9), RegId::SystemSet(0)));
    assert!(!reg_id_le(RegId::SystemSet(0), RegId::System(9)));
    assert!(reg_id_le(RegId::System(1), RegId::System(2)));
}

fn s(x: &str) -> String {
    x.to_string()
}

fn four_plugins() -> PluginGroupBuilder {
    let mut group = PluginGroupBuilder::new();
    group.add(s("a"));
    group.add(s("c"));
    group.add_before(&s("c"), s("b"));
    group.add_after(&s("c"), s("d"));
    group
}

#[test]
fn plugin_group_orders_and_filters_plugins() {
    assert_eq!(four_plugins().finish(), vec![s("a"), s("b"), s("c"), s("d")]);
    let mut group = four_plugins();
    group.disable(&s("b"));
    assert_eq!(group.finish(), vec![s("a"), s("c"), s("d")]);
    let mut group = four_plugins();
    group.disable(&s("b"));
    group.enable(&s("b"));
    assert_eq!(group.finish(), vec![s("a"), s("b"), s("c"), s("d")]);
}

#[test]
fn plugin_added_twice_stands_twice() {
    let mut group = PluginGroupBuilder::new();
    group.add(s("a"));
    group.add(s("a"));
    assert_eq!(group.finish(), vec![s("a"), s("a")]);
}
