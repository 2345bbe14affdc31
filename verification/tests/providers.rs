use scriptrunner::info_objects::display_info;
use scriptrunner::info_objects::lid_info::LidInfo;
use scriptrunner::info_objects::monitor_info;
use scriptrunner::info_objects::net_info::NetInfo;
use scriptrunner::values::SystemStateVar;

#[test]
fn lid_state_parses_last_token() {
    let mut lid = LidInfo::new_refcell();
    assert!(lid.lid_open);
    lid.update_self("state:      closed\n");
    assert!(!lid.lid_open);
    lid.update_self("state:      open\n");
    assert!(lid.lid_open);
    lid.update_self("");
    assert!(!lid.lid_open);
}

#[test]
fn lid_snapshot_shape() {
    let lid = LidInfo::new_refcell();
    let info = lid.get_info();
    assert_eq!(info.len(), 1);
    assert_eq!(info[0].0, String::from("lid_open"));
    assert!(matches!(info[0].1, SystemStateVar::Bool(true)));
    assert_eq!(lid.get_name(), String::from("LidInfo"));
    assert_eq!(lid.get_provided_vars(), vec![String::from("lid_open")]);
}

#[test]
fn net_tracks_up_interfaces() {
    let mut net = NetInfo::new_refcell();
    let entries = vec![
        (String::from("eth0"), String::from("UP\n")),
        (String::from("lo"), String::from("unknown\n")),
        (String::from("wlan0"), String::from("down\n")),
    ];
    net.update_self(&entries);
    assert_eq!(net.interfaces.len(), 3);
    assert_eq!(net.up_interfaces, vec![String::from("eth0")]);
    let info = net.get_info();
    assert_eq!(info[0].0, String::from("num_up_interfaces"));
    assert!(matches!(info[0].1, SystemStateVar::Int(1)));
    assert_eq!(info[1].0, String::from("last_updated_interface"));
    // eth0 drops: it becomes the last updated interface
    let entries2 = vec![
        (String::from("eth0"), String::from("down\n")),
        (String::from("lo"), String::from("unknown\n")),
        (String::from("wlan0"), String::from("down\n")),
    ];
    net.update_self(&entries2);
    assert_eq!(net.up_interfaces.len(), 0);
    assert_eq!(net.last_updated_interface, String::from("eth0"));
    // wlan0 comes up: it becomes the last updated interface
    let entries3 = vec![
        (String::from("eth0"), String::from("down\n")),
        (String::from("wlan0"), String::from("up\n")),
    ];
    net.update_self(&entries3);
    assert_eq!(net.up_interfaces, vec![String::from("wlan0")]);
    assert_eq!(net.last_updated_interface, String::from("wlan0"));
    assert_eq!(net.get_name(), String::from("NetInfo"));
}

#[test]
fn display_provider_parses_query_output() {
    let mut mon = display_info::MonitorInfo::new_refcell();
    mon.update_self("HDMI-1 connected 1920x1080+0+0\neDP-1 disconnected (normal left)\n");
    assert_eq!(mon.num_displays_connected, 1);
    let info = mon.get_info();
    assert_eq!(info.len(), 5);
    assert_eq!(info[0].0, String::from("HDMI-1_connected"));
    assert!(matches!(info[0].1, SystemStateVar::Bool(true)));
    assert_eq!(info[1].0, String::from("eDP-1_connected"));
    assert!(matches!(info[1].1, SystemStateVar::Bool(false)));
    assert_eq!(info[2].0, String::from("num_displays_plugged_in"));
    assert!(matches!(info[2].1, SystemStateVar::Int(1)));
    assert_eq!(info[3].0, String::from("last_display_was_connected"));
    assert_eq!(info[4].0, String::from("last_display_changed"));
    assert_eq!(mon.get_name(), String::from("MonitorInfo"));
}

#[test]
fn display_provider_detects_connect_and_disconnect() {
    let mut mon = display_info::MonitorInfo::new_refcell();
    mon.update_self("HDMI-1 disconnected\neDP-1 connected 1366x768+0+0\n");
    assert_eq!(mon.num_displays_connected, 1);
    mon.update_self("HDMI-1 connected 1920x1080+0+0\neDP-1 connected 1366x768+0+0\n");
    assert_eq!(mon.num_displays_connected, 2);
    assert!(mon.last_action_was_connect);
    assert_eq!(mon.last_display_changed, String::from("HDMI-1"));
    mon.update_self("HDMI-1 disconnected\neDP-1 connected 1366x768+0+0\n");
    assert_eq!(mon.num_displays_connected, 1);
    assert!(!mon.last_action_was_connect);
    assert_eq!(mon.last_display_changed, String::from("HDMI-1"));
}

#[test]
fn monitor_provider_key_names() {
    let mut mon = monitor_info::MonitorInfo::new_refcell();
    mon.update_self("VGA-1 connected primary\n");
    assert_eq!(mon.num_monitors_connected, 1);
    let info = mon.get_info();
    assert_eq!(info.len(), 4);
    assert_eq!(info[0].0, String::from("VGA-1_connected"));
    assert_eq!(info[1].0, String::from("num_monitors_plugged_in"));
    assert_eq!(info[2].0, String::from("last_action_was_connect"));
    assert_eq!(info[3].0, String::from("last_monitor_changed"));
}
