use smelter_media::drm_paths::{
    configured_drm_paths, no_usable_drm_display_error, push_unique_drm_path, render_node_index,
    sorted_render_nodes, vaapi_drm_paths_from, DEFAULT_DRM_RENDER_NODE,
};

#[test]
fn drm_paths_keep_configured_device_first() {
    let paths = vaapi_drm_paths_from(
        Some("/dev/dri/renderD129".into()),
        vec!["/dev/dri/renderD128".into(), "/dev/dri/renderD129".into()],
    );

    assert_eq!(paths, vec!["/dev/dri/renderD129", "/dev/dri/renderD128"]);
}

#[test]
fn drm_paths_use_default_when_no_render_nodes_are_discovered() {
    let paths = vaapi_drm_paths_from(None, vec![]);

    assert_eq!(paths, vec![DEFAULT_DRM_RENDER_NODE]);
}

#[test]
fn empty_paths_are_skipped() {
    let paths = vaapi_drm_paths_from(Some(String::new()), vec![String::new()]);
    assert_eq!(paths, vec!["/dev/dri/renderD128"]);
    let mut paths = vec!["a".to_string()];
    push_unique_drm_path(&mut paths, "a".to_string());
    push_unique_drm_path(&mut paths, "b".to_string());
    push_unique_drm_path(&mut paths, String::new());
    assert_eq!(paths, vec!["a", "b"]);
}

#[test]
fn render_nodes_are_numbered_by_their_names() {
    assert_eq!(render_node_index("renderD128"), Some(128));
    assert_eq!(render_node_index("renderD+7"), Some(7));
    assert_eq!(render_node_index("renderD4294967295"), Some(u32::MAX));
    assert_eq!(render_node_index("renderD4294967296"), None);
    assert_eq!(render_node_index("renderD"), None);
    assert_eq!(render_node_index("renderD+"), None);
    assert_eq!(render_node_index("renderD12a"), None);
    assert_eq!(render_node_index("card0"), None);
    assert_eq!(render_node_index("rend"), None);
}

#[test]
fn render_nodes_are_sorted_by_number_and_stay_in_order() {
    let sorted = sorted_render_nodes(vec![
        (130, "c".to_string()),
        (128, "a".to_string()),
        (129, "b".to_string()),
        (128, "a2".to_string()),
    ]);
    assert_eq!(sorted, vec!["a", "a2", "b", "c"]);
    assert_eq!(sorted_render_nodes(vec![]), Vec::<String>::new());
}

#[test]
fn the_error_lists_the_paths() {
    let paths = vec!["/dev/dri/renderD128".to_string(), "/dev/dri/renderD129".to_string()];
    assert_eq!(
        no_usable_drm_display_error(&paths),
        "no usable DRM display found in /dev/dri/renderD128, /dev/dri/renderD129"
    );
    assert_eq!(no_usable_drm_display_error(&[]), "no usable DRM display found in ");
}

#[test]
fn without_a_search_the_default_comes_last() {
    assert_eq!(configured_drm_paths(None), vec!["/dev/dri/renderD128"]);
    assert_eq!(configured_drm_paths(Some("a".into())), vec!["a", "/dev/dri/renderD128"]);
    assert_eq!(configured_drm_paths(Some(String::new())), vec!["", "/dev/dri/renderD128"]);
}
