use installer_gui::disks::Disk;
use installer_gui::net::Network;
use installer_gui::wizard::{
    layout, layouts, ConnectPrompt, NetStatus, Rotation, Step, Wizard, LAYOUT_COUNT,
};

fn disk(name: &str, is_live: bool) -> Disk {
    Disk {
        name: name.to_string(),
        size: "1.0T".to_string(),
        model: String::new(),
        tran: "sata".to_string(),
        rotational: true,
        is_live,
    }
}

fn net(ssid: &str, secured: bool) -> Network {
    Network { ssid: ssid.to_string(), signal: 50, secured, active: false }
}

fn wizard(disks: Vec<Disk>) -> Wizard {
    Wizard::new(false, Ok(disks))
}

#[test]
fn rotation_names() {
    assert_eq!(Rotation::Normal.xrandr(), "normal");
    assert_eq!(Rotation::Inverted.xrandr(), "inverted");
    assert_eq!(Rotation::Normal.label(), "Landscape");
    assert_eq!(Rotation::Inverted.label(), "Upside down");
    assert_eq!(Rotation::all(), [Rotation::Normal, Rotation::Inverted]);
}

#[test]
fn layouts_table() {
    let all = layouts();
    assert_eq!(all.len(), LAYOUT_COUNT);
    assert_eq!(all[0].code, "us");
    assert_eq!(all[0].label, "English (US)");
    assert_eq!(all[15].code, "ca");
    assert_eq!(all[15].label, "Canadian (Fr)");
    assert!(layout(16).is_none());
    assert_eq!(layout(2).unwrap().label, "German");
}

#[test]
fn new_wizard_picks_first_disk_not_booted_from() {
    let w = wizard(vec![disk("sdb", true), disk("sda", false), disk("sdc", false)]);
    assert_eq!(w.step, Step::Welcome);
    assert_eq!(w.selected, 1);
    assert_eq!(w.keyboard_code(), "us");
    assert_eq!(w.keyboard_label(), "English (US)");
    assert_eq!(w.selected_disk().unwrap().name, "sda");
    let only_live = wizard(vec![disk("sdb", true)]);
    assert_eq!(only_live.selected, 0);
    assert!(only_live.selected_disk().is_none());
    let failed = Wizard::new(true, Err("lsblk missing".to_string()));
    assert!(failed.disks.is_empty());
    assert_eq!(failed.disk_error, Some("lsblk missing".to_string()));
    assert!(failed.dry_run);
}

#[test]
fn refresh_keeps_disks_on_error() {
    let mut w = wizard(vec![disk("sda", false)]);
    w.refresh_disks(Err("boom".to_string()));
    assert_eq!(w.disks.len(), 1);
    assert_eq!(w.disk_error, Some("boom".to_string()));
    w.refresh_disks(Ok(vec![disk("sdx", true), disk("sdy", false)]));
    assert_eq!(w.disk_error, None);
    assert_eq!(w.selected, 1);
}

#[test]
fn continue_and_back_walk_the_pages() {
    let mut w = wizard(vec![disk("sda", false)]);
    let pages = [Step::SelectDisk, Step::Display, Step::Keyboard, Step::Network, Step::Confirm];
    for p in pages {
        w.advance();
        assert_eq!(w.step, p);
    }
    w.advance();
    assert_eq!(w.step, Step::Confirm);
    for p in [Step::Network, Step::Keyboard, Step::Display, Step::SelectDisk, Step::Welcome] {
        w.go_back();
        assert_eq!(w.step, p);
    }
    w.go_back();
    assert_eq!(w.step, Step::Welcome);
}

#[test]
fn disk_page_needs_an_installable_disk() {
    let mut w = wizard(vec![disk("sdb", true)]);
    w.advance();
    assert_eq!(w.step, Step::SelectDisk);
    w.advance();
    assert_eq!(w.step, Step::SelectDisk);
    w.choose_disk(0);
    assert_eq!(w.selected, 0);
    w.step = Step::Confirm;
    assert!(!w.check_confirm_target());
    assert_eq!(w.step, Step::SelectDisk);
}

#[test]
fn install_never_starts_on_the_live_disk() {
    let mut w = wizard(vec![disk("sdb", true), disk("sda", false)]);
    w.selected = 0;
    w.confirm_ack = true;
    assert_eq!(w.confirm_install(), None);
    assert_eq!(w.step, Step::Welcome);
    w.choose_disk(0);
    assert_eq!(w.selected, 0);
    w.open_disk(1);
    assert_eq!(w.selected, 1);
    assert_eq!(w.step, Step::Display);
    w.confirm_ack = false;
    assert_eq!(w.confirm_install(), None);
    w.confirm_ack = true;
    w.log.push("old".to_string());
    assert_eq!(w.confirm_install(), Some("sda".to_string()));
    assert_eq!(w.step, Step::Installing);
    assert_eq!(w.target_disk, Some("sda".to_string()));
    assert_eq!(w.phase, "Starting…");
    assert!(w.log.is_empty());
    assert!(w.installing);
    assert!(w.busy());
}

#[test]
fn log_keeps_the_latest_lines() {
    let mut w = wizard(vec![disk("sda", false)]);
    for i in 0..4000 {
        w.on_install_log(format!("line {i}"));
    }
    assert_eq!(w.log.len(), 4000);
    w.on_install_log("line 4000".to_string());
    assert_eq!(w.log.len(), 3001);
    assert_eq!(w.log[0], "line 1000");
    assert_eq!(w.log[3000], "line 4000");
}

#[test]
fn a_batch_of_log_lines_keeps_a_suffix_within_the_limit() {
    let mut w = wizard(vec![disk("sda", false)]);
    let mut all: Vec<String> = Vec::new();
    for i in 0..9500 {
        let line = format!("line {i}");
        all.push(line.clone());
        w.on_install_log(line);
        assert!(w.log.len() <= 4000);
        let dropped = all.len() - w.log.len();
        assert_eq!(dropped % 1000, 0);
        assert_eq!(&all[dropped..], &w.log[..]);
    }
    assert_eq!(w.log.len(), 3500);
    assert_eq!(w.log[0], "line 6000");
}

#[test]
fn failure_reason_is_last_nonblank_line() {
    let mut w = wizard(vec![disk("sda", false)]);
    w.begin_install();
    w.on_install_progress("Copying".to_string());
    assert_eq!(w.phase, "Copying");
    w.on_install_log("error: disk is busy ".to_string());
    w.on_install_log("   ".to_string());
    w.on_install_log("".to_string());
    w.on_install_done(false);
    assert_eq!(w.step, Step::Failed);
    assert_eq!(w.failed_reason, Some("error: disk is busy ".to_string()));
    assert!(!w.installing);
    let mut quiet = wizard(vec![disk("sda", false)]);
    quiet.begin_install();
    quiet.on_install_done(false);
    assert_eq!(
        quiet.failed_reason,
        Some("The installer backend exited with an error.".to_string())
    );
    let mut good = wizard(vec![disk("sda", false)]);
    good.begin_install();
    good.on_install_done(true);
    assert_eq!(good.step, Step::Done);
    assert_eq!(good.failed_reason, None);
}

#[test]
fn escape_goes_back_and_failure_asks_for_disks() {
    let mut w = wizard(vec![disk("sda", false)]);
    w.step = Step::Network;
    assert!(!w.on_escape());
    assert_eq!(w.step, Step::Keyboard);
    w.step = Step::Installing;
    assert!(!w.on_escape());
    assert_eq!(w.step, Step::Installing);
    w.step = Step::Failed;
    w.confirm_ack = true;
    assert!(w.on_escape());
    assert_eq!(w.step, Step::Failed);
    w.return_to_disk_selection(Ok(vec![disk("sdz", false)]));
    assert_eq!(w.step, Step::SelectDisk);
    assert!(!w.confirm_ack);
    assert_eq!(w.disks[0].name, "sdz");
}

#[test]
fn entering_pages_applies_layout_and_scans() {
    let mut w = wizard(vec![disk("sda", false)]);
    let e = w.enter_step();
    assert!(e.entered);
    assert!(!e.scan);
    assert_eq!(w.last_step, Step::Welcome);
    assert!(!w.enter_step().entered);
    w.step = Step::Keyboard;
    w.keyboard = 3;
    let e = w.enter_step();
    assert_eq!(e.layout, Some("fr"));
    w.step = Step::Network;
    w.networks.push(net("Old", false));
    let e = w.enter_step();
    assert!(e.scan);
    assert!(w.networks.is_empty());
    assert_eq!(w.net_status, NetStatus::Scanning);
    assert!(w.busy());
}

#[test]
fn keyboard_choice() {
    let mut w = wizard(vec![]);
    assert_eq!(w.set_keyboard(2), Some("de"));
    assert_eq!(w.keyboard, 2);
    assert_eq!(w.keyboard_label(), "German");
    assert_eq!(w.set_keyboard(99), None);
    assert_eq!(w.keyboard, 2);
    assert_eq!(w.open_layout(13), Some("ru"));
    assert_eq!(w.step, Step::Network);
    w.keyboard = 40;
    assert_eq!(w.keyboard_code(), "us");
    assert_eq!(w.keyboard_label(), "English (US)");
}

#[test]
fn rotation_choice() {
    let mut w = wizard(vec![]);
    w.choose_rotation(Rotation::Inverted);
    assert_eq!(w.rotation, Rotation::Inverted);
    w.open_rotation(Rotation::Normal);
    assert_eq!(w.rotation, Rotation::Normal);
    assert_eq!(w.step, Step::Keyboard);
}

#[test]
fn scanning_and_connecting() {
    let mut w = wizard(vec![]);
    w.start_scan();
    assert!(w.scanning);
    w.on_scan_result(Ok(vec![net("Open", false), net("Home", true)]));
    assert!(!w.scanning);
    assert_eq!(w.net_status, NetStatus::Idle);
    assert_eq!(w.connect_prompt(), ConnectPrompt::Hidden);
    assert_eq!(w.start_connect(), None);
    w.choose_network(1);
    w.net_password = "secret".to_string();
    w.choose_network(1);
    assert_eq!(w.net_password, "secret");
    assert_eq!(w.connect_prompt(), ConnectPrompt::Password);
    assert_eq!(
        w.start_connect(),
        Some(("Home".to_string(), Some("secret".to_string())))
    );
    assert_eq!(w.net_status, NetStatus::Connecting);
    assert!(w.busy());
    w.on_connect_result(Err("wrong password".to_string()));
    assert_eq!(w.net_status, NetStatus::Failed("wrong password".to_string()));
    assert_eq!(w.net_connected, None);
    w.choose_network(0);
    assert_eq!(w.net_password, "");
    assert_eq!(w.connect_prompt(), ConnectPrompt::Open);
    assert_eq!(w.start_connect(), Some(("Open".to_string(), None)));
    w.on_connect_result(Ok(()));
    assert_eq!(w.net_connected, Some("Open".to_string()));
    assert_eq!(w.net_status, NetStatus::Connected("Open".to_string()));
    assert_eq!(w.connect_prompt(), ConnectPrompt::Hidden);
    assert!(!w.busy());
}

#[test]
fn scan_failure_is_shown() {
    let mut w = wizard(vec![]);
    w.start_scan();
    w.on_scan_result(Err("nmcli not available".to_string()));
    assert_eq!(w.net_status, NetStatus::Failed("nmcli not available".to_string()));
    w.net_status = NetStatus::Connecting;
    w.on_scan_result(Ok(vec![net("A", false)]));
    assert_eq!(w.net_status, NetStatus::Connecting);
    assert_eq!(w.networks.len(), 1);
}
