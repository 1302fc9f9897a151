use wmde_settings::hardware::{Cpu, DisplayServer, Summary, Value};
use wmde_settings::settings::about::{hostname_submit, info_from, processor, HostnameStep};
use wmde_settings::settings::panel::{
    background_index, find_label, look_index, output_index, without_name, Background,
    OutputSetting, PanelLook, anchor_gap_change, autohide, expand_change, look_change, opacity_step, output_choice,
    page_id, remove_output, reset_radius, thickness, thickness_change, OpacityAction, OpacityEvent, OutputChoice,
    MAX_PANEL_THICKNESS,
};

#[test]
fn a_panel_page_is_named_after_its_panel() {
    assert_eq!(page_id("Dock"), "panel:Dock");
    assert_eq!(page_id(""), "panel:");
}

#[test]
fn the_radius_follows_the_shape() {
    // Floating: the theme's radius, whatever else is set.
    assert_eq!(anchor_gap_change(true, true, 16), (4, 16));
    // Neither floating nor stretched: rounded, at most 12.
    assert_eq!(anchor_gap_change(false, false, 16), (0, 12));
    assert_eq!(anchor_gap_change(false, false, 8), (0, 8));
    // Stretched to the edges: square.
    assert_eq!(anchor_gap_change(false, true, 16), (0, 0));
    assert_eq!(expand_change(true, false, 16), 0);
    assert_eq!(expand_change(false, false, 16), 12);
    assert_eq!(expand_change(true, true, 16), 16);
}

#[test]
fn reset_restores_the_shape_radius() {
    assert_eq!(reset_radius(true, false, true, 30), 30);
    assert_eq!(reset_radius(false, true, false, 30), 12);
    assert_eq!(reset_radius(false, false, false, 30), 0);
    assert_eq!(reset_radius(false, true, true, 30), 0);
}

#[test]
fn autohide_trades_the_reserved_strip_for_hiding() {
    assert_eq!(autohide(true), (false, true));
    assert_eq!(autohide(false), (true, false));
}

#[test]
fn the_island_look_has_padding_and_does_not_stretch() {
    let island = look_change(1, false, 20);
    assert!(island.island);
    assert!(!island.expand_to_edges);
    assert_eq!(island.padding, 4);
    assert_eq!(island.radius, 12);
    let bar = look_change(0, false, 20);
    assert!(!bar.island);
    assert!(bar.expand_to_edges);
    assert_eq!(bar.padding, 0);
    assert_eq!(bar.radius, 0);
    assert_eq!(look_change(0, true, 20).radius, 20);
}

#[test]
fn thickness_is_clamped_to_the_control() {
    assert_eq!(thickness(2, 8), 8);
    assert_eq!(thickness(48, 8), 48);
    assert_eq!(thickness(500, 8), MAX_PANEL_THICKNESS);
}

#[test]
fn a_thickness_change_clears_the_centre_and_wing_sizes() {
    let c = thickness_change(500, 8);
    assert_eq!(c.size, MAX_PANEL_THICKNESS);
    assert_eq!(c.size_center, None);
    assert_eq!(c.size_wings, None);
    assert_eq!(thickness_change(2, 8).size, 8);
    assert_eq!(thickness_change(36, 8).size, 36);
}

#[test]
fn the_first_output_entry_means_all_displays() {
    assert!(matches!(output_choice(0), OutputChoice::All));
    assert!(matches!(output_choice(3), OutputChoice::Named(3)));
}

#[test]
fn opacity_writes_at_most_once_per_interval() {
    let (pending, action) = opacity_step(false, OpacityEvent::Request);
    assert!(pending);
    assert!(matches!(action, OpacityAction::Schedule));
    let (pending, action) = opacity_step(pending, OpacityEvent::Request);
    assert!(pending);
    assert!(matches!(action, OpacityAction::Hold));
    let (pending, action) = opacity_step(pending, OpacityEvent::Apply);
    assert!(!pending);
    assert!(matches!(action, OpacityAction::Write));
}

#[test]
fn removing_an_output_drops_its_first_entry_only() {
    let mut outputs = vec!["DP-1".to_string(), "HDMI-A-1".to_string(), "DP-1".to_string()];
    remove_output(&mut outputs, "DP-1");
    assert_eq!(outputs, ["HDMI-A-1", "DP-1"]);
    remove_output(&mut outputs, "eDP-1");
    assert_eq!(outputs, ["HDMI-A-1", "DP-1"]);
}

#[test]
fn a_hostname_is_submitted_only_when_changed_and_valid() {
    assert!(matches!(hostname_submit("box", "box"), HostnameStep::Keep));
    assert!(matches!(hostname_submit("-bad", "box"), HostnameStep::Keep));
    assert!(matches!(hostname_submit("a..b", "box"), HostnameStep::Keep));
    assert!(matches!(hostname_submit("", "box"), HostnameStep::Keep));
    assert!(matches!(hostname_submit("héllo", "box"), HostnameStep::Keep));
    match hostname_submit("work-station.lan", "box") {
        HostnameStep::Submit(h) => assert_eq!(h, "work-station.lan"),
        HostnameStep::Keep => panic!("a valid new name is submitted"),
    }
}

fn summary() -> Summary {
    Summary {
        vendor: Value::Known("LENOVO".into()),
        model: Value::Known("Lenovo ThinkPad X1".into()),
        board: Value::Known("20XW".into()),
        os_name: Value::Known("WMDE".into()),
        os_build: Value::Unavailable,
        kernel: Value::Known("6.9.1".into()),
        architecture: Value::Known("x86_64".into()),
        hostname: Value::RequiresRoot,
        uptime_secs: Some(10),
        cpu: Cpu {
            model: Value::Known("Intel(R) Core(TM) i9-14900KF".into()),
            vendor: Value::Known("GenuineIntel".into()),
            physical_cores: Some(24),
            logical_threads: Some(32),
            sockets: Some(1),
            max_freq_khz: None,
        },
        mem_total_bytes: Some(1),
        swap_total_bytes: None,
        gpu_names: vec!["NVIDIA GeForce RTX 4070".into()],
        disk_total_bytes: 0,
        disk_count: 0,
        desktop: Value::Unavailable,
        desktop_version: "1.0".into(),
        display_server: DisplayServer::Wayland,
    }
}

#[test]
fn the_processor_row_carries_cores_and_threads() {
    let s = summary();
    assert_eq!(processor(&s, "?"), "Intel(R) Core(TM) i9-14900KF (24 / 32)");
    let mut t = summary();
    t.cpu.logical_threads = None;
    assert_eq!(processor(&t, "?"), "Intel(R) Core(TM) i9-14900KF");
    t.cpu.model = Value::Unavailable;
    assert_eq!(processor(&t, "?"), "?");
}

#[test]
fn the_about_page_fills_gaps_with_unknown() {
    let info = info_from(&summary(), "unknown", "WMDE 1.0".into(), "2.0 TB".into(), Some("16 GiB".into()), None);
    assert_eq!(info.desktop_environment, "WMDE 1.0");
    assert_eq!(info.device_name, "unknown");
    // A zero disk total reads as unknown, whatever text was handed in.
    assert_eq!(info.disk_capacity, "unknown");
    assert_eq!(info.graphics, ["NVIDIA GeForce RTX 4070"]);
    assert_eq!(info.hardware_model, "Lenovo ThinkPad X1");
    assert_eq!(info.memory, "16 GiB");
    assert_eq!(info.operating_system, "WMDE");
    assert_eq!(info.os_architecture, "x86_64");
    assert_eq!(info.kernel_version, "6.9.1");
    assert_eq!(info.windowing_system, "Wayland");
    assert_eq!(info.motherboard, "20XW");
    assert_eq!(info.swap, "unknown");
}

#[test]
fn removing_a_panel_drops_every_entry_of_its_name() {
    let names = vec!["Panel".to_owned(), "Dock".to_owned(), "Panel2".to_owned(), "Dock".to_owned()];
    assert_eq!(without_name(&names, "Dock"), ["Panel", "Panel2"]);
    assert_eq!(without_name(&names, "Other"), names);
}

#[test]
fn a_dropdown_choice_is_found_by_its_label() {
    let labels = vec!["Left".to_owned(), "Right".to_owned(), "Top".to_owned(), "Bottom".to_owned()];
    assert_eq!(find_label(&labels, "Top"), Some(2));
    assert_eq!(find_label(&labels, "Middle"), None);
}

#[test]
fn the_dropdowns_show_the_configured_entries() {
    assert_eq!(look_index(PanelLook::Island), 1);
    assert_eq!(look_index(PanelLook::Bar), 0);
    assert_eq!(look_index(PanelLook::Auto), 0);
    assert_eq!(background_index(Background::ThemeDefault), Some(0));
    assert_eq!(background_index(Background::Light), Some(1));
    assert_eq!(background_index(Background::Dark), Some(2));
    assert_eq!(background_index(Background::Color), None);
    let outputs = vec!["All displays".to_owned(), "DP-1".to_owned(), "HDMI-A-1".to_owned()];
    assert_eq!(output_index(&OutputSetting::All, &outputs), Some(0));
    assert_eq!(output_index(&OutputSetting::Active, &outputs), None);
    assert_eq!(output_index(&OutputSetting::Named("HDMI-A-1".into()), &outputs), Some(2));
    assert_eq!(output_index(&OutputSetting::Named("eDP-1".into()), &outputs), None);
}
