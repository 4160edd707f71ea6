use installer_gui::disks::DiskKind;
use installer_gui::theme::icon_for;
use installer_gui::ui::{cycle_index, focus_on_register, indicator, indicator_mark, indicator_position, signal_icon, StepMark};
use installer_gui::wizard::Step;

#[test]
fn focus_cycles_through_items() {
    assert_eq!(cycle_index(0, 0, 1), None);
    assert_eq!(cycle_index(0, 3, 1), Some(1));
    assert_eq!(cycle_index(2, 3, 1), Some(0));
    assert_eq!(cycle_index(0, 3, -1), Some(2));
    assert_eq!(cycle_index(9, 3, 1), Some(0));
    assert_eq!(cycle_index(9, 3, -1), Some(1));
    for n in 1..6usize {
        for i in 0..n {
            let f = cycle_index(i, n, 1).unwrap();
            assert_eq!(cycle_index(f, n, -1), Some(i));
        }
    }
}

#[test]
fn focus_follows_keyboard_and_moving_pointer() {
    assert_eq!(focus_on_register(2, 5, false, false, false), 2);
    assert_eq!(focus_on_register(2, 5, true, false, false), 5);
    assert_eq!(focus_on_register(2, 5, false, true, false), 2);
    assert_eq!(focus_on_register(2, 5, false, true, true), 5);
    assert_eq!(focus_on_register(2, 5, false, false, true), 2);
}

#[test]
fn step_indicator_marks() {
    let ind = indicator();
    assert_eq!(ind.len(), 7);
    assert_eq!(ind[1], ("Disk", Step::SelectDisk));
    assert_eq!(ind[4], ("Wi-Fi", Step::Network));
    assert_eq!(indicator_position(Step::Done), 6);
    assert_eq!(indicator_position(Step::Failed), 6);
    assert_eq!(indicator_position(Step::Keyboard), 3);
    assert_eq!(indicator_mark(Step::Keyboard, 3), StepMark::Active);
    assert_eq!(indicator_mark(Step::Keyboard, 1), StepMark::Passed);
    assert_eq!(indicator_mark(Step::Keyboard, 5), StepMark::Ahead);
}

#[test]
fn icons_come_from_the_phosphor_font() {
    assert_eq!(icon_for(DiskKind::Usb), egui_phosphor::regular::USB);
    assert_eq!(icon_for(DiskKind::Ssd), egui_phosphor::regular::HARD_DRIVE);
    assert_eq!(icon_for(DiskKind::Hdd), egui_phosphor::regular::HARD_DRIVES);
    assert_eq!(icon_for(DiskKind::Usb), "\u{E956}");
    assert_eq!(signal_icon(100), egui_phosphor::regular::WIFI_HIGH);
    assert_eq!(signal_icon(67), egui_phosphor::regular::WIFI_HIGH);
    assert_eq!(signal_icon(66), egui_phosphor::regular::WIFI_MEDIUM);
    assert_eq!(signal_icon(34), egui_phosphor::regular::WIFI_MEDIUM);
    assert_eq!(signal_icon(33), egui_phosphor::regular::WIFI_LOW);
    assert_eq!(signal_icon(1), egui_phosphor::regular::WIFI_LOW);
    assert_eq!(signal_icon(0), egui_phosphor::regular::WIFI_NONE);
    assert_eq!(signal_icon(101), egui_phosphor::regular::WIFI_NONE);
    assert_eq!(signal_icon(66), "\u{E4EE}");
}
