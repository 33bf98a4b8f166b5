use bevy_ecs::app::{App, AppError, Plugin, PluginsState};

struct PluginA;
impl Plugin for PluginA {
    fn build(&self, _app: &mut App) {}
    fn name(&self) -> String {
        String::from("app::PluginA")
    }
    fn is_unique(&self) -> bool {
        true
    }
}

struct PluginB;
impl Plugin for PluginB {
    fn build(&self, _app: &mut App) {}
    fn name(&self) -> String {
        String::from("app::PluginB")
    }
    fn is_unique(&self) -> bool {
        true
    }
}

struct PluginC<T>(T);
impl Plugin for PluginC<i32> {
    fn build(&self, _app: &mut App) {}
    fn name(&self) -> String {
        String::from("app::PluginC<i32>")
    }
    fn is_unique(&self) -> bool {
        true
    }
}
impl Plugin for PluginC<bool> {
    fn build(&self, _app: &mut App) {}
    fn name(&self) -> String {
        String::from("app::PluginC<bool>")
    }
    fn is_unique(&self) -> bool {
        true
    }
}

struct PluginD;
impl Plugin for PluginD {
    fn build(&self, _app: &mut App) {}
    fn name(&self) -> String {
        String::from("app::PluginD")
    }
    fn is_unique(&self) -> bool {
        false
    }
}

struct Nested;
impl Plugin for Nested {
    fn build(&self, app: &mut App) {
        assert!(app.is_building_plugins());
        app.add_plugins(vec![Box::new(PluginB)]).unwrap();
    }
    fn name(&self) -> String {
        String::from("app::Nested")
    }
    fn is_unique(&self) -> bool {
        true
    }
}

#[test]
fn can_add_two_plugins() {
    App::new()
        .add_plugins(vec![Box::new(PluginA), Box::new(PluginB)])
        .unwrap();
}

#[test]
fn cant_add_twice_the_same_plugin() {
    let result = App::new().add_plugins(vec![Box::new(PluginA), Box::new(PluginA)]);
    assert_eq!(
        result,
        Err(AppError::DuplicatePlugin {
            plugin_name: String::from("app::PluginA")
        })
    );
}

#[test]
fn can_add_twice_the_same_plugin_with_different_type_param() {
    App::new()
        .add_plugins(vec![Box::new(PluginC(0)), Box::new(PluginC(true))])
        .unwrap();
}

#[test]
fn can_add_twice_the_same_plugin_not_unique() {
    App::new()
        .add_plugins(vec![Box::new(PluginD), Box::new(PluginD)])
        .unwrap();
}

#[test]
fn plugins_are_recorded_in_order_including_nested_ones() {
    let mut app = App::new();
    app.add_plugins(vec![Box::new(Nested), Box::new(PluginA)]).unwrap();
    assert!(app.is_plugin_added(&String::from("app::Nested")));
    assert!(app.is_plugin_added(&String::from("app::PluginB")));
    assert!(app.is_plugin_added(&String::from("app::PluginA")));
    assert!(!app.is_plugin_added(&String::from("app::PluginD")));
    assert!(!app.is_building_plugins());
}

#[test]
fn reserve_plugin_refuses_a_taken_unique_name() {
    let mut app = App::empty();
    assert_eq!(app.reserve_plugin(String::from("x"), true), Ok(0));
    assert_eq!(
        app.reserve_plugin(String::from("x"), true),
        Err(AppError::DuplicatePlugin {
            plugin_name: String::from("x")
        })
    );
    assert_eq!(app.reserve_plugin(String::from("x"), false), Ok(1));
    assert!(app.is_building_plugins());
    app.finish_plugin_build(0, String::from("x"));
    app.finish_plugin_build(1, String::from("x"));
    assert!(!app.is_building_plugins());
}

#[test]
fn plugins_state_lifecycle() {
    let mut app = App::new();
    assert_eq!(app.plugins_state(), PluginsState::Ready);
    app.finish();
    assert_eq!(app.plugins_state(), PluginsState::Finished);
    app.cleanup();
    assert_eq!(app.plugins_state(), PluginsState::Cleaned);
}

#[test]
fn a_new_app_has_the_main_schedule_plugin() {
    let app = App::new();
    assert!(app.is_plugin_added(&String::from(
        "bevy_app::main_schedule::MainSchedulePlugin"
    )));
    let empty = App::empty();
    assert!(!empty.is_plugin_added(&String::from(
        "bevy_app::main_schedule::MainSchedulePlugin"
    )));
}

#[test]
fn a_refused_plugin_stops_the_rest_of_the_list() {
    let mut app = App::new();
    let result = app.add_plugins(vec![Box::new(PluginA), Box::new(PluginA), Box::new(PluginB)]);
    assert!(result.is_err());
    assert!(app.is_plugin_added(&String::from("app::PluginA")));
    assert!(!app.is_plugin_added(&String::from("app::PluginB")));
}
