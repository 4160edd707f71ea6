//! Icons of the Phosphor font the wizard draws with.

use vstd::prelude::*;

use crate::disks::DiskKind;

verus! {

/// `egui_phosphor::regular::USB`, the one-glyph string U+E956.
#[verifier::external_body]
pub(crate) fn glyph_usb() -> (g: &'static str)
    ensures
        g@ == seq!['\u{E956}'],
{
    egui_phosphor::regular::USB
}

/// `egui_phosphor::regular::HARD_DRIVE`, the one-glyph string U+E29E.
#[verifier::external_body]
pub(crate) fn glyph_hard_drive() -> (g: &'static str)
    ensures
        g@ == seq!['\u{E29E}'],
{
    egui_phosphor::regular::HARD_DRIVE
}

/// `egui_phosphor::regular::HARD_DRIVES`, the one-glyph string U+E2A0.
#[verifier::external_body]
pub(crate) fn glyph_hard_drives() -> (g: &'static str)
    ensures
        g@ == seq!['\u{E2A0}'],
{
    egui_phosphor::regular::HARD_DRIVES
}

/// `egui_phosphor::regular::WIFI_HIGH`, the one-glyph string U+E4EA.
#[verifier::external_body]
pub(crate) fn glyph_wifi_high() -> (g: &'static str)
    ensures
        g@ == seq!['\u{E4EA}'],
{
    egui_phosphor::regular::WIFI_HIGH
}

/// `egui_phosphor::regular::WIFI_MEDIUM`, the one-glyph string U+E4EE.
#[verifier::external_body]
pub(crate) fn glyph_wifi_medium() -> (g: &'static str)
    ensures
        g@ == seq!['\u{E4EE}'],
{
    egui_phosphor::regular::WIFI_MEDIUM
}

/// `egui_phosphor::regular::WIFI_LOW`, the one-glyph string U+E4EC.
#[verifier::external_body]
pub(crate) fn glyph_wifi_low() -> (g: &'static str)
    ensures
        g@ == seq!['\u{E4EC}'],
{
    egui_phosphor::regular::WIFI_LOW
}

/// `egui_phosphor::regular::WIFI_NONE`, the one-glyph string U+E4F0.
#[verifier::external_body]
pub(crate) fn glyph_wifi_none() -> (g: &'static str)
    ensures
        g@ == seq!['\u{E4F0}'],
{
    egui_phosphor::regular::WIFI_NONE
}

/// The glyph drawn for a kind of disk: a USB plug, one drive for an SSD,
/// stacked drives for an HDD.
pub open spec fn disk_glyph(kind: DiskKind) -> Seq<char> {
    match kind {
        DiskKind::Usb => seq!['\u{E956}'],
        DiskKind::Ssd => seq!['\u{E29E}'],
        DiskKind::Hdd => seq!['\u{E2A0}'],
    }
}

/// The icon drawn for a kind of disk.
pub fn icon_for(kind: DiskKind) -> (g: &'static str)
    ensures
        g@ == disk_glyph(kind),
{
    match kind {
        DiskKind::Usb => glyph_usb(),
        DiskKind::Ssd => glyph_hard_drive(),
        DiskKind::Hdd => glyph_hard_drives(),
    }
}

} // verus!
