use zmaxion::plugin::PluginGroupBuilder;

#[test]
fn plugins_are_built_in_order() {
    let mut b: PluginGroupBuilder<&str> = PluginGroupBuilder::new();
    b.add(1, "a");
    b.add(2, "b");
    b.add_before(2, 3, "c");
    b.add_after(1, 4, "d");
    assert_eq!(b.finish(), vec!["a", "d", "c", "b"]);
}

#[test]
fn disabled_plugin_is_not_built() {
    let mut b: PluginGroupBuilder<&str> = PluginGroupBuilder::new();
    b.add(1, "a");
    b.add(2, "b");
    b.disable(1);
    assert_eq!(b.finish(), vec!["b"]);
}

#[test]
fn enabled_again_plugin_is_built() {
    let mut b: PluginGroupBuilder<&str> = PluginGroupBuilder::new();
    b.add(1, "a");
    b.disable(1);
    b.enable(1);
    assert_eq!(b.finish(), vec!["a"]);
}

#[test]
fn plugin_added_twice_is_built_once_with_the_last_value() {
    let mut b: PluginGroupBuilder<&str> = PluginGroupBuilder::new();
    b.add(1, "first");
    b.add(2, "b");
    b.add(1, "second");
    assert_eq!(b.finish(), vec!["second", "b"]);
}
