//! The installer wizard: its pages, settings and state machine. The
//! surrounding program draws the pages, runs the commands the wizard asks
//! for, and reports their results back as events.

use vstd::prelude::*;

use crate::disks::Disk;
use crate::net::Network;
use crate::text::{chars_of, trim, trim_chars};

verus! {

/// A page of the wizard.
#[derive(Clone, Copy, Debug, PartialEq, Eq, Structural)]
pub enum Step {
    Welcome,
    SelectDisk,
    Display,
    Keyboard,
    Network,
    Confirm,
    Installing,
    Done,
    Failed,
}

/// How the picture is rotated on the cabinet's monitor.
#[derive(Clone, Copy, Debug, PartialEq, Eq, Structural)]
pub enum Rotation {
    Normal,
    Inverted,
}

/// The `xrandr` name of a rotation.
pub open spec fn xrandr_name(r: Rotation) -> Seq<char> {
    match r {
        Rotation::Normal => "normal"@,
        Rotation::Inverted => "inverted"@,
    }
}

/// The label shown for a rotation.
pub open spec fn rotation_label(r: Rotation) -> Seq<char> {
    match r {
        Rotation::Normal => "Landscape"@,
        Rotation::Inverted => "Upside down"@,
    }
}

impl Rotation {
    /// Both rotations, in the order the wizard shows them.
    pub fn all() -> (r: [Rotation; 2])
        ensures
            r@ == seq![Rotation::Normal, Rotation::Inverted],
    {
        let r = [Rotation::Normal, Rotation::Inverted];
        assert(r@ == seq![Rotation::Normal, Rotation::Inverted]);
        r
    }

    /// The name `xrandr --rotate` takes.
    pub fn xrandr(self) -> (s: &'static str)
        ensures
            s@ == xrandr_name(self),
    {
        match self {
            Rotation::Normal => "normal",
            Rotation::Inverted => "inverted",
        }
    }

    /// The label shown for this rotation.
    pub fn label(self) -> (s: &'static str)
        ensures
            s@ == rotation_label(self),
    {
        match self {
            Rotation::Normal => "Landscape",
            Rotation::Inverted => "Upside down",
        }
    }
}

/// A keyboard layout offered by the wizard.
#[derive(Clone, Copy, Debug)]
pub struct KeyboardLayout {
    /// The XKB layout code, as `setxkbmap` takes it.
    pub code: &'static str,
    /// The name shown.
    pub label: &'static str,
}

/// How many layouts the wizard offers.
pub const LAYOUT_COUNT: usize = 16;

/// The code of the `i`-th layout offered.
pub open spec fn layout_code(i: int) -> Seq<char> {
    if i == 0 {
        "us"@
    } else if i == 1 {
        "gb"@
    } else if i == 2 {
        "de"@
    } else if i == 3 {
        "fr"@
    } else if i == 4 {
        "es"@
    } else if i == 5 {
        "it"@
    } else if i == 6 {
        "pt"@
    } else if i == 7 {
        "nl"@
    } else if i == 8 {
        "se"@
    } else if i == 9 {
        "no"@
    } else if i == 10 {
        "dk"@
    } else if i == 11 {
        "fi"@
    } else if i == 12 {
        "pl"@
    } else if i == 13 {
        "ru"@
    } else if i == 14 {
        "ch"@
    } else {
        "ca"@
    }
}

/// The name of the `i`-th layout offered.
pub open spec fn layout_label(i: int) -> Seq<char> {
    if i == 0 {
        "English (US)"@
    } else if i == 1 {
        "English (UK)"@
    } else if i == 2 {
        "German"@
    } else if i == 3 {
        "French"@
    } else if i == 4 {
        "Spanish"@
    } else if i == 5 {
        "Italian"@
    } else if i == 6 {
        "Portuguese"@
    } else if i == 7 {
        "Dutch"@
    } else if i == 8 {
        "Swedish"@
    } else if i == 9 {
        "Norwegian"@
    } else if i == 10 {
        "Danish"@
    } else if i == 11 {
        "Finnish"@
    } else if i == 12 {
        "Polish"@
    } else if i == 13 {
        "Russian"@
    } else if i == 14 {
        "Swiss"@
    } else {
        "Canadian (Fr)"@
    }
}

/// The XKB codes of the layouts offered, in order, spelt out character by
/// character: us, gb, de, fr, es, it, pt, nl, se, no, dk, fi, pl, ru, ch, ca.
pub open spec fn xkb_codes() -> Seq<Seq<char>> {
    seq![
        seq!['u', 's'], seq!['g', 'b'], seq!['d', 'e'], seq!['f', 'r'],
        seq!['e', 's'], seq!['i', 't'], seq!['p', 't'], seq!['n', 'l'],
        seq!['s', 'e'], seq!['n', 'o'], seq!['d', 'k'], seq!['f', 'i'],
        seq!['p', 'l'], seq!['r', 'u'], seq!['c', 'h'], seq!['c', 'a'],
    ]
}

/// Each layout hands back its own XKB code: the codes are those of
/// `xkb_codes`, in order, and no two layouts share a code.
pub proof fn lemma_layout_codes()
    ensures
        forall|i: int| 0 <= i < LAYOUT_COUNT ==> #[trigger] layout_code(i) == xkb_codes()[i],
        forall|i: int, j: int|
            0 <= i < LAYOUT_COUNT && 0 <= j < LAYOUT_COUNT && i != j ==> #[trigger] layout_code(i)
                != #[trigger] layout_code(j),
{
    reveal_strlit("us");
    reveal_strlit("gb");
    reveal_strlit("de");
    reveal_strlit("fr");
    reveal_strlit("es");
    reveal_strlit("it");
    reveal_strlit("pt");
    reveal_strlit("nl");
    reveal_strlit("se");
    reveal_strlit("no");
    reveal_strlit("dk");
    reveal_strlit("fi");
    reveal_strlit("pl");
    reveal_strlit("ru");
    reveal_strlit("ch");
    reveal_strlit("ca");
    assert forall|i: int| 0 <= i < LAYOUT_COUNT implies #[trigger] layout_code(i) == xkb_codes()[i] by {
        assert(layout_code(i) =~= xkb_codes()[i]);
    }
    assert forall|i: int, j: int|
        0 <= i < LAYOUT_COUNT && 0 <= j < LAYOUT_COUNT && i != j implies #[trigger] layout_code(i)
            != #[trigger] layout_code(j) by {
        assert(layout_code(i) == xkb_codes()[i]);
        assert(layout_code(j) == xkb_codes()[j]);
        if xkb_codes()[i] == xkb_codes()[j] {
            assert(xkb_codes()[i][0] == xkb_codes()[j][0]);
            assert(xkb_codes()[i][1] == xkb_codes()[j][1]);
        }
    }
}

/// The `i`-th layout offered, if there is one.
pub fn layout(i: usize) -> (r: Option<KeyboardLayout>)
    ensures
        r is Some <==> i < LAYOUT_COUNT,
        r matches Some(l) ==> l.code@ == layout_code(i as int) && l.label@ == layout_label(
            i as int,
        ),
{
    let (code, label) = if i == 0 {
        ("us", "English (US)")
    } else if i == 1 {
        ("gb", "English (UK)")
    } else if i == 2 {
        ("de", "German")
    } else if i == 3 {
        ("fr", "French")
    } else if i == 4 {
        ("es", "Spanish")
    } else if i == 5 {
        ("it", "Italian")
    } else if i == 6 {
        ("pt", "Portuguese")
    } else if i == 7 {
        ("nl", "Dutch")
    } else if i == 8 {
        ("se", "Swedish")
    } else if i == 9 {
        ("no", "Norwegian")
    } else if i == 10 {
        ("dk", "Danish")
    } else if i == 11 {
        ("fi", "Finnish")
    } else if i == 12 {
        ("pl", "Polish")
    } else if i == 13 {
        ("ru", "Russian")
    } else if i == 14 {
        ("ch", "Swiss")
    } else if i == 15 {
        ("ca", "Canadian (Fr)")
    } else {
        return None;
    };
    Some(KeyboardLayout { code, label })
}

/// All layouts offered, in the order the wizard lists them.
pub fn layouts() -> (r: Vec<KeyboardLayout>)
    ensures
        r@.len() == LAYOUT_COUNT,
        forall|i: int| 0 <= i < LAYOUT_COUNT ==> (#[trigger] r@[i]).code@ == layout_code(i)
            && r@[i].label@ == layout_label(i),
{
    let mut r: Vec<KeyboardLayout> = Vec::new();
    let mut i: usize = 0;
    while i < LAYOUT_COUNT
        invariant
            i <= LAYOUT_COUNT,
            r@.len() == i,
            forall|k: int| 0 <= k < i ==> (#[trigger] r@[k]).code@ == layout_code(k)
                && r@[k].label@ == layout_label(k),
        decreases LAYOUT_COUNT - i,
    {
        match layout(i) {
            Some(l) => r.push(l),
            None => {},
        }
        i = i + 1;
    }
    r
}

/// The state of the Wi-Fi page.
#[derive(Clone, Debug, Default, PartialEq)]
pub enum NetStatus {
    #[default]
    Idle,
    Scanning,
    Connecting,
    Connected(String),
    Failed(String),
}


/// The installer wizard's state.
pub struct Wizard {
    /// The page shown.
    pub step: Step,
    /// The disks found.
    pub disks: Vec<Disk>,
    /// Why the disks could not be listed, if they could not.
    pub disk_error: Option<String>,
    /// Index of the chosen disk.
    pub selected: usize,
    pub rotation: Rotation,
    /// Index of the chosen keyboard layout.
    pub keyboard: usize,
    /// The disk the installation was started on.
    pub target_disk: Option<String>,
    /// Whether the user confirmed that the disk will be erased.
    pub confirm_ack: bool,
    /// Whether the backend only pretends to write.
    pub dry_run: bool,
    pub networks: Vec<Network>,
    /// Index of the chosen network.
    pub net_selected: Option<usize>,
    pub net_password: String,
    pub net_status: NetStatus,
    /// The network connected to from the wizard.
    pub net_connected: Option<String>,
    /// Whether a scan is running.
    pub scanning: bool,
    /// Whether a connection attempt is running.
    pub connecting: bool,
    /// The network being connected to.
    pub connecting_ssid: Option<String>,
    /// Whether the backend is running.
    pub installing: bool,
    /// The backend's current phase.
    pub phase: String,
    /// The backend's output lines.
    pub log: Vec<String>,
    /// Why the installation failed, if it did.
    pub failed_reason: Option<String>,
    /// The page shown when the wizard last looked.
    pub last_step: Step,
}

/// What the surrounding program has to do when a page is entered.
#[derive(Clone, Copy, Debug)]
pub struct StepEntry {
    /// Whether a new page was entered (focus then starts over).
    pub entered: bool,
    /// The keyboard layout to apply, if any.
    pub layout: Option<&'static str>,
    /// Whether to start a Wi-Fi scan.
    pub scan: bool,
}

/// How the Wi-Fi page offers to connect to the chosen network.
#[derive(Clone, Copy, Debug, PartialEq, Eq, Structural)]
pub enum ConnectPrompt {
    /// No network is chosen, or the wizard is connected already.
    Hidden,
    /// The chosen network is secured: ask for its password.
    Password,
    /// The chosen network is open.
    Open,
}

/// Index of the first disk that the system was not booted from, or the length.
pub open spec fn first_not_live(ds: Seq<Disk>) -> int
    decreases ds.len(),
{
    if ds.len() == 0 {
        0
    } else if !ds[0].is_live {
        0
    } else {
        1 + first_not_live(ds.drop_first())
    }
}

/// The disk chosen after listing: the first one the system was not booted
/// from, else the first.
pub open spec fn initial_selection(ds: Seq<Disk>) -> int {
    if first_not_live(ds) < ds.len() {
        first_not_live(ds)
    } else {
        0
    }
}

/// `first_not_live` is the first disk that is not the live one.
pub proof fn lemma_first_not_live(ds: Seq<Disk>)
    ensures
        0 <= first_not_live(ds) <= ds.len(),
        forall|k: int| 0 <= k < first_not_live(ds) ==> (#[trigger] ds[k]).is_live,
        first_not_live(ds) < ds.len() ==> !ds[first_not_live(ds)].is_live,
    decreases ds.len(),
{
    if ds.len() > 0 && ds[0].is_live {
        lemma_first_not_live(ds.drop_first());
        assert forall|k: int| 0 <= k < first_not_live(ds) implies (#[trigger] ds[k]).is_live by {
            if k > 0 {
                assert(ds[k] == ds.drop_first()[k - 1]);
            }
        }
    }
}

/// The page a Back button (or Escape) leads to.
pub open spec fn back_of(s: Step) -> Option<Step> {
    match s {
        Step::SelectDisk => Some(Step::Welcome),
        Step::Display => Some(Step::SelectDisk),
        Step::Keyboard => Some(Step::Display),
        Step::Network => Some(Step::Keyboard),
        Step::Confirm => Some(Step::Network),
        _ => None,
    }
}

/// The page a Continue button leads to (the disk page's only once an
/// installable disk is chosen).
pub open spec fn next_of(s: Step, installable: bool) -> Option<Step> {
    match s {
        Step::Welcome => Some(Step::SelectDisk),
        Step::SelectDisk => if installable {
            Some(Step::Display)
        } else {
            None
        },
        Step::Display => Some(Step::Keyboard),
        Step::Keyboard => Some(Step::Network),
        Step::Network => Some(Step::Confirm),
        _ => None,
    }
}

/// The text shown as the phase when the backend starts.
pub open spec fn starting_text() -> Seq<char> {
    "Starting…"@
}

/// The reason given for a failure when the log holds nothing but blanks.
pub open spec fn default_failure_text() -> Seq<char> {
    "The installer backend exited with an error."@
}

/// The characters of each string.
pub open spec fn string_views(v: Seq<String>) -> Seq<Seq<char>> {
    v.map_values(|s: String| s@)
}

/// The last line of `ls` that is not blank, as it stands.
pub open spec fn last_nonblank(ls: Seq<Seq<char>>) -> Option<Seq<char>>
    decreases ls.len(),
{
    if ls.len() == 0 {
        None
    } else if trim(ls.last()).len() > 0 {
        Some(ls.last())
    } else {
        last_nonblank(ls.drop_last())
    }
}

/// The reason given for a failure is the last line that is not blank: it is
/// one of the lines, it is not blank, and every line after it is blank; there
/// is none only when every line is blank.
pub proof fn lemma_last_nonblank(ls: Seq<Seq<char>>)
    ensures
        last_nonblank(ls) is None <==> forall|j: int| 0 <= j < ls.len() ==> trim(#[trigger] ls[j]).len() == 0,
        last_nonblank(ls) matches Some(l) ==> exists|k: int|
            0 <= k < ls.len() && #[trigger] ls[k] == l && trim(ls[k]).len() > 0 && forall|j: int|
                k < j < ls.len() ==> trim(#[trigger] ls[j]).len() == 0,
    decreases ls.len(),
{
    if ls.len() > 0 {
        let front = ls.drop_last();
        let n = ls.len() - 1;
        if trim(ls.last()).len() > 0 {
            assert(ls[n] == ls.last());
            assert(trim(ls[n]).len() > 0);
        } else {
            lemma_last_nonblank(front);
            assert forall|j: int| 0 <= j < front.len() implies front[j] == ls[j] by {}
            assert(ls[n] == ls.last());
            match last_nonblank(front) {
                Some(l) => {
                    let k = choose|k: int|
                        0 <= k < front.len() && #[trigger] front[k] == l && trim(front[k]).len() > 0
                            && forall|j: int| k < j < front.len() ==> trim(#[trigger] front[j]).len() == 0;
                    assert(ls[k] == l);
                    assert forall|j: int| k < j < ls.len() implies trim(#[trigger] ls[j]).len() == 0 by {
                        if j < n {
                            assert(front[j] == ls[j]);
                        }
                    }
                    assert(trim(ls[k]).len() > 0 && ls[k] == l);
                },
                None => {
                    assert forall|j: int| 0 <= j < ls.len() implies trim(#[trigger] ls[j]).len() == 0 by {
                        if j < n {
                            assert(front[j] == ls[j]);
                        }
                    }
                },
            }
        }
    }
}

/// The most log lines the wizard keeps.
pub const LOG_LIMIT: usize = 4000;

/// How many of the oldest lines go when the log grows past the limit.
pub const LOG_DROP: usize = 1000;

/// The log after `line` arrives: appended, and the oldest `LOG_DROP` lines
/// dropped when that makes it longer than `LOG_LIMIT`.
pub open spec fn log_after(log: Seq<Seq<char>>, line: Seq<char>) -> Seq<Seq<char>> {
    let pushed = log.push(line);
    if pushed.len() > LOG_LIMIT {
        pushed.skip(LOG_DROP as int)
    } else {
        pushed
    }
}

/// The log after the lines `ls` arrive one after another.
pub open spec fn log_after_lines(log: Seq<Seq<char>>, ls: Seq<Seq<char>>) -> Seq<Seq<char>>
    decreases ls.len(),
{
    if ls.len() == 0 {
        log
    } else {
        log_after(log_after_lines(log, ls.drop_last()), ls.last())
    }
}

/// Over any batch of lines, the log is the old log followed by the new lines
/// with the oldest dropped `LOG_DROP` at a time; nothing is dropped while all
/// of them fit in `LOG_LIMIT`, and a log within the limit stays within it.
pub proof fn lemma_log_after_lines(log: Seq<Seq<char>>, ls: Seq<Seq<char>>)
    ensures
        ({
            let all = log + ls;
            let r = log_after_lines(log, ls);
            &&& r.len() <= all.len()
            &&& (all.len() - r.len()) % (LOG_DROP as int) == 0
            &&& r == all.skip(all.len() - r.len())
            &&& all.len() <= LOG_LIMIT ==> r == all
            &&& log.len() <= LOG_LIMIT ==> r.len() <= LOG_LIMIT
        }),
    decreases ls.len(),
{
    let all = log + ls;
    let r = log_after_lines(log, ls);
    if ls.len() == 0 {
        assert(all =~= log);
        assert(all.skip(0) =~= all);
    } else {
        let front = ls.drop_last();
        let x = ls.last();
        lemma_log_after_lines(log, front);
        let all0 = log + front;
        let prev = log_after_lines(log, front);
        let d = all0.len() - prev.len();
        assert(all =~= all0.push(x));
        let pushed = prev.push(x);
        assert(pushed =~= all.skip(d));
        if pushed.len() > LOG_LIMIT {
            assert(r == pushed.skip(LOG_DROP as int));
            assert(r =~= all.skip(d + LOG_DROP));
            assert((d + LOG_DROP) % (LOG_DROP as int) == 0) by {
                vstd::arithmetic::div_mod::lemma_mod_add_multiples_vanish(d, LOG_DROP as int);
            }
        } else {
            assert(r == pushed);
        }
    }
}

impl Wizard {
    /// A disk is chosen, and it is not the one the system was booted from.
    pub open spec fn installable(self) -> bool {
        self.selected < self.disks@.len() && !self.disks@[self.selected as int].is_live
    }

    /// The disk list and the choice in it are the same in both states.
    pub open spec fn same_disks(self, other: Wizard) -> bool {
        &&& self.disks == other.disks
        &&& self.disk_error == other.disk_error
        &&& self.selected == other.selected
    }

    /// The display, keyboard and confirmation settings are the same.
    pub open spec fn same_settings(self, other: Wizard) -> bool {
        &&& self.rotation == other.rotation
        &&& self.keyboard == other.keyboard
        &&& self.confirm_ack == other.confirm_ack
        &&& self.dry_run == other.dry_run
    }

    /// The Wi-Fi state is the same.
    pub open spec fn same_net(self, other: Wizard) -> bool {
        &&& self.networks == other.networks
        &&& self.net_selected == other.net_selected
        &&& self.net_password == other.net_password
        &&& self.net_status == other.net_status
        &&& self.net_connected == other.net_connected
        &&& self.scanning == other.scanning
        &&& self.connecting == other.connecting
        &&& self.connecting_ssid == other.connecting_ssid
    }

    /// The installation state is the same.
    pub open spec fn same_install(self, other: Wizard) -> bool {
        &&& self.target_disk == other.target_disk
        &&& self.installing == other.installing
        &&& self.phase == other.phase
        &&& self.log == other.log
        &&& self.failed_reason == other.failed_reason
    }

    /// The pages are the same.
    pub open spec fn same_steps(self, other: Wizard) -> bool {
        self.step == other.step && self.last_step == other.last_step
    }

    /// The whole state is the same.
    pub open spec fn same_as(self, other: Wizard) -> bool {
        &&& self.same_disks(other)
        &&& self.same_settings(other)
        &&& self.same_net(other)
        &&& self.same_install(other)
        &&& self.same_steps(other)
    }
}

fn initial_selection_of(ds: &Vec<Disk>) -> (r: usize)
    ensures
        r as int == initial_selection(ds@),
{
    proof {
        lemma_first_not_live(ds@);
    }
    let mut i: usize = 0;
    while i < ds.len()
        invariant
            i <= ds@.len(),
            forall|k: int| 0 <= k < i ==> (#[trigger] ds@[k]).is_live,
        decreases ds@.len() - i,
    {
        if !ds[i].is_live {
            proof {
                lemma_first_not_live(ds@);
                if first_not_live(ds@) < i {
                    assert(ds@[first_not_live(ds@)].is_live);
                }
                if first_not_live(ds@) > i {
                    assert(ds@[i as int].is_live);
                }
            }
            return i;
        }
        i = i + 1;
    }
    proof {
        lemma_first_not_live(ds@);
        if first_not_live(ds@) < ds@.len() {
            assert(ds@[first_not_live(ds@)].is_live);
        }
    }
    0
}


impl Wizard {
    /// The wizard on its welcome page, with the disks the listing found (or
    /// none, and the listing's error), the first disk the system was not
    /// booted from chosen, the US layout, the normal rotation, and nothing
    /// else done yet.
    pub fn new(dry_run: bool, listing: Result<Vec<Disk>, String>) -> (w: Wizard)
        ensures
            w.step == Step::Welcome,
            w.last_step == Step::Done,
            match listing {
                Ok(d) => w.disks == d && w.disk_error is None,
                Err(e) => w.disks@ == Seq::<Disk>::empty() && w.disk_error == Some(e),
            },
            w.selected == initial_selection(w.disks@),
            w.rotation == Rotation::Normal,
            w.keyboard == 0,
            layout_code(w.keyboard as int) == "us"@,
            w.target_disk is None,
            !w.confirm_ack,
            w.dry_run == dry_run,
            w.networks@ == Seq::<Network>::empty(),
            w.net_selected is None,
            w.net_password@ == Seq::<char>::empty(),
            w.net_status == NetStatus::Idle,
            w.net_connected is None,
            !w.scanning,
            !w.connecting,
            w.connecting_ssid is None,
            !w.installing,
            w.phase@ == Seq::<char>::empty(),
            w.log@ == Seq::<String>::empty(),
            w.failed_reason is None,
    {
        let (disks, disk_error) = match listing {
            Ok(d) => (d, None),
            Err(e) => (Vec::new(), Some(e)),
        };
        let selected = initial_selection_of(&disks);
        Wizard {
            step: Step::Welcome,
            disks,
            disk_error,
            selected,
            rotation: Rotation::Normal,
            keyboard: 0,
            target_disk: None,
            confirm_ack: false,
            dry_run,
            networks: Vec::new(),
            net_selected: None,
            net_password: String::new(),
            net_status: NetStatus::Idle,
            net_connected: None,
            scanning: false,
            connecting: false,
            connecting_ssid: None,
            installing: false,
            phase: String::new(),
            log: Vec::new(),
            failed_reason: None,
            last_step: Step::Done,
        }
    }

    /// Takes a new disk listing: on success the disks are replaced and the
    /// first one the system was not booted from is chosen; on failure only the
    /// error is recorded.
    pub fn refresh_disks(&mut self, listing: Result<Vec<Disk>, String>)
        ensures
            match listing {
                Ok(d) => {
                    &&& final(self).disks == d
                    &&& final(self).disk_error is None
                    &&& final(self).selected == initial_selection(d@)
                },
                Err(e) => {
                    &&& final(self).disks == old(self).disks
                    &&& final(self).disk_error == Some(e)
                    &&& final(self).selected == old(self).selected
                },
            },
            final(self).same_settings(*old(self)),
            final(self).same_net(*old(self)),
            final(self).same_install(*old(self)),
            final(self).same_steps(*old(self)),
    {
        match listing {
            Ok(d) => {
                self.selected = initial_selection_of(&d);
                self.disks = d;
                self.disk_error = None;
            },
            Err(e) => {
                self.disk_error = Some(e);
            },
        }
    }

    /// The chosen disk, unless it is the one the system was booted from.
    pub fn selected_disk(&self) -> (r: Option<&Disk>)
        ensures
            r is Some <==> self.installable(),
            r matches Some(d) ==> *d == self.disks@[self.selected as int],
    {
        if self.selected < self.disks.len() && !self.disks[self.selected].is_live {
            Some(&self.disks[self.selected])
        } else {
            None
        }
    }

    /// The code of the chosen layout (`us` if the index is out of range).
    pub fn keyboard_code(&self) -> (s: &'static str)
        ensures
            s@ == if self.keyboard < LAYOUT_COUNT {
                layout_code(self.keyboard as int)
            } else {
                "us"@
            },
    {
        match layout(self.keyboard) {
            Some(l) => l.code,
            None => "us",
        }
    }

    /// The name of the chosen layout (`English (US)` if the index is out of
    /// range).
    pub fn keyboard_label(&self) -> (s: &'static str)
        ensures
            s@ == if self.keyboard < LAYOUT_COUNT {
                layout_label(self.keyboard as int)
            } else {
                "English (US)"@
            },
    {
        match layout(self.keyboard) {
            Some(l) => l.label,
            None => "English (US)",
        }
    }

    /// Chooses the layout at `index`, if there is one, and hands back its
    /// code for `setxkbmap`.
    pub fn set_keyboard(&mut self, index: usize) -> (r: Option<&'static str>)
        ensures
            index >= LAYOUT_COUNT ==> r is None && final(self).keyboard == old(self).keyboard,
            index < LAYOUT_COUNT ==> {
                &&& final(self).keyboard == index
                &&& r matches Some(c) && c@ == layout_code(index as int)
            },
            final(self).same_disks(*old(self)),
            final(self).rotation == old(self).rotation,
            final(self).confirm_ack == old(self).confirm_ack,
            final(self).dry_run == old(self).dry_run,
            final(self).same_net(*old(self)),
            final(self).same_install(*old(self)),
            final(self).same_steps(*old(self)),
    {
        match layout(index) {
            Some(l) => {
                self.keyboard = index;
                Some(l.code)
            },
            None => None,
        }
    }
}


impl Wizard {
    /// Starts a Wi-Fi scan: the list is emptied, nothing is chosen, and the
    /// page shows that it is scanning.
    pub fn start_scan(&mut self)
        ensures
            final(self).networks@ == Seq::<Network>::empty(),
            final(self).net_selected is None,
            final(self).net_status == NetStatus::Scanning,
            final(self).scanning,
            final(self).net_password == old(self).net_password,
            final(self).net_connected == old(self).net_connected,
            final(self).connecting == old(self).connecting,
            final(self).connecting_ssid == old(self).connecting_ssid,
            final(self).same_disks(*old(self)),
            final(self).same_settings(*old(self)),
            final(self).same_install(*old(self)),
            final(self).same_steps(*old(self)),
    {
        self.networks = Vec::new();
        self.net_selected = None;
        self.net_status = NetStatus::Scanning;
        self.scanning = true;
    }

    /// Starts connecting to the chosen network, if one is chosen: hands back
    /// its SSID and, for a secured network, the password typed.
    pub fn start_connect(&mut self) -> (r: Option<(String, Option<String>)>)
        ensures
            match old(self).net_selected {
                Some(i) if i < old(self).networks@.len() => {
                    let net = old(self).networks@[i as int];
                    &&& r matches Some(c) && c.0@ == net.ssid@ && (if net.secured {
                        c.1 == Some(old(self).net_password)
                    } else {
                        c.1 is None
                    })
                    &&& final(self).connecting_ssid == Some(net.ssid)
                    &&& final(self).net_status == NetStatus::Connecting
                    &&& final(self).connecting
                    &&& final(self).networks == old(self).networks
                    &&& final(self).net_selected == old(self).net_selected
                    &&& final(self).net_password == old(self).net_password
                    &&& final(self).net_connected == old(self).net_connected
                    &&& final(self).scanning == old(self).scanning
                },
                _ => r is None && final(self).same_net(*old(self)),
            },
            final(self).same_disks(*old(self)),
            final(self).same_settings(*old(self)),
            final(self).same_install(*old(self)),
            final(self).same_steps(*old(self)),
    {
        let i = match self.net_selected {
            Some(i) => i,
            None => {
                return None;
            },
        };
        if i >= self.networks.len() {
            return None;
        }
        let net = self.networks[i].clone();
        let password = if net.secured {
            Some(self.net_password.clone())
        } else {
            None
        };
        let ssid = net.ssid;
        self.connecting_ssid = Some(ssid.clone());
        self.net_status = NetStatus::Connecting;
        self.connecting = true;
        Some((ssid, password))
    }

    /// A scan finished: its networks are listed (and a page still showing
    /// the scan goes idle), or its error is shown.
    pub fn on_scan_result(&mut self, res: Result<Vec<Network>, String>)
        ensures
            !final(self).scanning,
            match res {
                Ok(nets) => {
                    &&& final(self).networks == nets
                    &&& final(self).net_status == if old(self).net_status == NetStatus::Scanning {
                        NetStatus::Idle
                    } else {
                        old(self).net_status
                    }
                },
                Err(e) => {
                    &&& final(self).networks == old(self).networks
                    &&& final(self).net_status == NetStatus::Failed(e)
                },
            },
            final(self).net_selected == old(self).net_selected,
            final(self).net_password == old(self).net_password,
            final(self).net_connected == old(self).net_connected,
            final(self).connecting == old(self).connecting,
            final(self).connecting_ssid == old(self).connecting_ssid,
            final(self).same_disks(*old(self)),
            final(self).same_settings(*old(self)),
            final(self).same_install(*old(self)),
            final(self).same_steps(*old(self)),
    {
        match res {
            Ok(nets) => {
                self.networks = nets;
                match self.net_status {
                    NetStatus::Scanning => {
                        self.net_status = NetStatus::Idle;
                    },
                    _ => {},
                }
            },
            Err(e) => {
                self.net_status = NetStatus::Failed(e);
            },
        }
        self.scanning = false;
    }

    /// A connection attempt finished: on success the network being connected
    /// to is recorded as connected and shown so; on failure the error is shown.
    pub fn on_connect_result(&mut self, res: Result<(), String>)
        ensures
            ({
                let ssid = match old(self).connecting_ssid {
                    Some(s) => s@,
                    None => Seq::<char>::empty(),
                };
                match res {
                    Ok(()) => {
                        &&& final(self).net_connected matches Some(c) && c@ == ssid
                        &&& final(self).net_status matches NetStatus::Connected(c) && c@ == ssid
                    },
                    Err(e) => {
                        &&& final(self).net_connected == old(self).net_connected
                        &&& final(self).net_status == NetStatus::Failed(e)
                    },
                }
            }),
            !final(self).connecting,
            final(self).connecting_ssid is None,
            final(self).networks == old(self).networks,
            final(self).net_selected == old(self).net_selected,
            final(self).net_password == old(self).net_password,
            final(self).scanning == old(self).scanning,
            final(self).same_disks(*old(self)),
            final(self).same_settings(*old(self)),
            final(self).same_install(*old(self)),
            final(self).same_steps(*old(self)),
    {
        let ssid = match self.connecting_ssid.take() {
            Some(s) => s,
            None => String::new(),
        };
        match res {
            Ok(()) => {
                self.net_connected = Some(ssid.clone());
                self.net_status = NetStatus::Connected(ssid);
            },
            Err(e) => {
                self.net_status = NetStatus::Failed(e);
            },
        }
        self.connecting = false;
    }

    /// Starts the installation on the chosen disk, unless the chosen disk is
    /// the one the system was booted from (or none is chosen): hands back the
    /// disk's name, records it as the target, clears the log and the failure,
    /// and moves to the installing page.
    pub fn begin_install(&mut self) -> (r: Option<String>)
        ensures
            !old(self).installable() ==> r is None && final(self).same_as(*old(self)),
            old(self).installable() ==> {
                let disk = old(self).disks@[old(self).selected as int];
                &&& !disk.is_live
                &&& r matches Some(n) && n@ == disk.name@
                &&& final(self).target_disk == r
                &&& final(self).log@ == Seq::<String>::empty()
                &&& final(self).phase@ == starting_text()
                &&& final(self).failed_reason is None
                &&& final(self).installing
                &&& final(self).step == Step::Installing
                &&& final(self).last_step == old(self).last_step
            },
            final(self).same_disks(*old(self)),
            final(self).same_settings(*old(self)),
            final(self).same_net(*old(self)),
    {
        if !(self.selected < self.disks.len() && !self.disks[self.selected].is_live) {
            return None;
        }
        let name = self.disks[self.selected].name.clone();
        self.target_disk = Some(name.clone());
        self.log = Vec::new();
        self.phase = String::from_str("Starting…");
        self.failed_reason = None;
        self.installing = true;
        self.step = Step::Installing;
        Some(name)
    }

    /// A line of the backend's output: appended to the log, which then drops
    /// its oldest `LOG_DROP` lines if it grew past `LOG_LIMIT`.
    pub fn on_install_log(&mut self, line: String)
        ensures
            string_views(final(self).log@) == log_after(string_views(old(self).log@), line@),
            old(self).log@.len() <= LOG_LIMIT ==> final(self).log@.len() <= LOG_LIMIT,
            final(self).target_disk == old(self).target_disk,
            final(self).installing == old(self).installing,
            final(self).phase == old(self).phase,
            final(self).failed_reason == old(self).failed_reason,
            final(self).same_disks(*old(self)),
            final(self).same_settings(*old(self)),
            final(self).same_net(*old(self)),
            final(self).same_steps(*old(self)),
    {
        let ghost before = string_views(self.log@);
        self.log.push(line);
        assert(string_views(self.log@) =~= before.push(line@));
        if self.log.len() > LOG_LIMIT {
            let rest = self.log.split_off(LOG_DROP);
            self.log = rest;
            assert(string_views(self.log@) =~= before.push(line@).skip(LOG_DROP as int));
        }
    }

    /// The backend entered a new phase.
    pub fn on_install_progress(&mut self, phase: String)
        ensures
            final(self).phase == phase,
            final(self).target_disk == old(self).target_disk,
            final(self).installing == old(self).installing,
            final(self).log == old(self).log,
            final(self).failed_reason == old(self).failed_reason,
            final(self).same_disks(*old(self)),
            final(self).same_settings(*old(self)),
            final(self).same_net(*old(self)),
            final(self).same_steps(*old(self)),
    {
        self.phase = phase;
    }

    /// The backend finished: on success the wizard moves to the done page;
    /// on failure it records the last non-blank log line (or a general
    /// message) as the reason and moves to the failure page.
    pub fn on_install_done(&mut self, ok: bool)
        ensures
            !final(self).installing,
            ok ==> final(self).step == Step::Done && final(self).failed_reason == old(self).failed_reason,
            !ok ==> {
                &&& final(self).step == Step::Failed
                &&& final(self).failed_reason matches Some(reason) && reason@ == match last_nonblank(
                    string_views(old(self).log@),
                ) {
                    Some(l) => l,
                    None => default_failure_text(),
                }
            },
            final(self).last_step == old(self).last_step,
            final(self).target_disk == old(self).target_disk,
            final(self).phase == old(self).phase,
            final(self).log == old(self).log,
            final(self).same_disks(*old(self)),
            final(self).same_settings(*old(self)),
            final(self).same_net(*old(self)),
    {
        if ok {
            self.step = Step::Done;
        } else {
            self.failed_reason = Some(last_nonblank_line(&self.log));
            self.step = Step::Failed;
        }
        self.installing = false;
    }

    /// Whether something is running that the screen should follow.
    pub fn busy(&self) -> (b: bool)
        ensures
            b == (self.step == Step::Installing || self.scanning || self.connecting),
    {
        match self.step {
            Step::Installing => true,
            _ => self.scanning || self.connecting,
        }
    }
}

/// The last non-blank line of `log`, or the general failure message.
fn last_nonblank_line(log: &Vec<String>) -> (r: String)
    ensures
        r@ == match last_nonblank(string_views(log@)) {
            Some(l) => l,
            None => default_failure_text(),
        },
{
    let ghost all = string_views(log@);
    let mut i: usize = log.len();
    assert(all.take(log@.len() as int) == all);
    while i > 0
        invariant
            i <= log@.len(),
            all == string_views(log@),
            last_nonblank(all.take(i as int)) == last_nonblank(all),
        decreases i,
    {
        let line = chars_of(log[i - 1].as_str());
        let t = trim_chars(line.as_slice());
        assert(all.take(i as int).last() == log@[i - 1]@);
        assert(all.take(i as int).drop_last() == all.take(i - 1));
        if t.len() > 0 {
            return log[i - 1].clone();
        }
        i = i - 1;
    }
    String::from_str("The installer backend exited with an error.")
}


impl Wizard {
    /// Looks whether a new page is shown. If so it is remembered, the keyboard
    /// page asks for its layout to be applied, and the Wi-Fi page starts a scan.
    pub fn enter_step(&mut self) -> (e: StepEntry)
        ensures
            old(self).step == old(self).last_step ==> {
                &&& !e.entered && e.layout is None && !e.scan
                &&& final(self).same_as(*old(self))
            },
            old(self).step != old(self).last_step ==> {
                &&& e.entered
                &&& final(self).last_step == old(self).step
                &&& final(self).step == old(self).step
                &&& (e.layout is Some <==> (old(self).step == Step::Keyboard && old(self).keyboard
                    < LAYOUT_COUNT))
                &&& e.layout matches Some(c) ==> c@ == layout_code(old(self).keyboard as int)
                &&& e.scan == (old(self).step == Step::Network)
                &&& e.scan ==> {
                    &&& final(self).networks@ == Seq::<Network>::empty()
                    &&& final(self).net_selected is None
                    &&& final(self).net_status == NetStatus::Scanning
                    &&& final(self).scanning
                    &&& final(self).net_password == old(self).net_password
                    &&& final(self).net_connected == old(self).net_connected
                    &&& final(self).connecting == old(self).connecting
                    &&& final(self).connecting_ssid == old(self).connecting_ssid
                }
                &&& !e.scan ==> final(self).same_net(*old(self))
            },
            final(self).same_disks(*old(self)),
            final(self).same_settings(*old(self)),
            final(self).same_install(*old(self)),
    {
        if self.step == self.last_step {
            return StepEntry { entered: false, layout: None, scan: false };
        }
        self.last_step = self.step;
        let mut layout_to_apply: Option<&'static str> = None;
        let mut scan = false;
        match self.step {
            Step::Keyboard => {
                let k = self.keyboard;
                layout_to_apply = self.set_keyboard(k);
            },
            Step::Network => {
                self.start_scan();
                scan = true;
            },
            _ => {},
        }
        StepEntry { entered: true, layout: layout_to_apply, scan }
    }

    /// A Back button: the previous page, where the page has one.
    pub fn go_back(&mut self)
        ensures
            final(self).step == match back_of(old(self).step) {
                Some(b) => b,
                None => old(self).step,
            },
            final(self).last_step == old(self).last_step,
            final(self).same_disks(*old(self)),
            final(self).same_settings(*old(self)),
            final(self).same_net(*old(self)),
            final(self).same_install(*old(self)),
    {
        match self.step {
            Step::SelectDisk => self.step = Step::Welcome,
            Step::Display => self.step = Step::SelectDisk,
            Step::Keyboard => self.step = Step::Display,
            Step::Network => self.step = Step::Keyboard,
            Step::Confirm => self.step = Step::Network,
            _ => {},
        }
    }

    /// The Escape key: the previous page, except while installing. On the
    /// failure page it asks for a new disk listing instead (returns `true`),
    /// to be handed to `return_to_disk_selection`.
    pub fn on_escape(&mut self) -> (needs_disks: bool)
        ensures
            needs_disks == (old(self).step == Step::Failed),
            final(self).step == match back_of(old(self).step) {
                Some(b) => b,
                None => old(self).step,
            },
            final(self).last_step == old(self).last_step,
            final(self).same_disks(*old(self)),
            final(self).same_settings(*old(self)),
            final(self).same_net(*old(self)),
            final(self).same_install(*old(self)),
    {
        match self.step {
            Step::Failed => true,
            _ => {
                self.go_back();
                false
            },
        }
    }

    /// Back to the disk page after a failure, with a new disk listing and
    /// the confirmation taken back.
    pub fn return_to_disk_selection(&mut self, listing: Result<Vec<Disk>, String>)
        ensures
            match listing {
                Ok(d) => {
                    &&& final(self).disks == d
                    &&& final(self).disk_error is None
                    &&& final(self).selected == initial_selection(d@)
                },
                Err(e) => {
                    &&& final(self).disks == old(self).disks
                    &&& final(self).disk_error == Some(e)
                    &&& final(self).selected == old(self).selected
                },
            },
            !final(self).confirm_ack,
            final(self).step == Step::SelectDisk,
            final(self).last_step == old(self).last_step,
            final(self).rotation == old(self).rotation,
            final(self).keyboard == old(self).keyboard,
            final(self).dry_run == old(self).dry_run,
            final(self).same_net(*old(self)),
            final(self).same_install(*old(self)),
    {
        self.refresh_disks(listing);
        self.confirm_ack = false;
        self.step = Step::SelectDisk;
    }

    /// A Continue button: the next page, where the page has one (the disk
    /// page's only once a disk other than the booted-from one is chosen).
    pub fn advance(&mut self)
        ensures
            final(self).step == match next_of(old(self).step, old(self).installable()) {
                Some(n) => n,
                None => old(self).step,
            },
            final(self).last_step == old(self).last_step,
            final(self).same_disks(*old(self)),
            final(self).same_settings(*old(self)),
            final(self).same_net(*old(self)),
            final(self).same_install(*old(self)),
    {
        match self.step {
            Step::Welcome => self.step = Step::SelectDisk,
            Step::SelectDisk => {
                if self.selected_disk().is_some() {
                    self.step = Step::Display;
                }
            },
            Step::Display => self.step = Step::Keyboard,
            Step::Keyboard => self.step = Step::Network,
            Step::Network => self.step = Step::Confirm,
            _ => {},
        }
    }

    /// The erase-and-install button, which works only once the user has
    /// confirmed (see `begin_install`).
    pub fn confirm_install(&mut self) -> (r: Option<String>)
        ensures
            !old(self).confirm_ack ==> r is None && final(self).same_as(*old(self)),
            old(self).confirm_ack && !old(self).installable() ==> r is None && final(self).same_as(*old(self)),
            old(self).confirm_ack && old(self).installable() ==> {
                let disk = old(self).disks@[old(self).selected as int];
                &&& !disk.is_live
                &&& r matches Some(n) && n@ == disk.name@
                &&& final(self).target_disk == r
                &&& final(self).log@ == Seq::<String>::empty()
                &&& final(self).phase@ == starting_text()
                &&& final(self).failed_reason is None
                &&& final(self).installing
                &&& final(self).step == Step::Installing
                &&& final(self).last_step == old(self).last_step
                &&& final(self).same_disks(*old(self))
                &&& final(self).same_settings(*old(self))
                &&& final(self).same_net(*old(self))
            },
    {
        if !self.confirm_ack {
            return None;
        }
        self.begin_install()
    }

    /// The confirmation page needs an installable disk: without one it sends
    /// the wizard back to the disk page (returns `false`).
    pub fn check_confirm_target(&mut self) -> (ok: bool)
        ensures
            ok == old(self).installable(),
            final(self).step == if ok {
                old(self).step
            } else {
                Step::SelectDisk
            },
            final(self).last_step == old(self).last_step,
            final(self).same_disks(*old(self)),
            final(self).same_settings(*old(self)),
            final(self).same_net(*old(self)),
            final(self).same_install(*old(self)),
    {
        if self.selected_disk().is_some() {
            true
        } else {
            self.step = Step::SelectDisk;
            false
        }
    }

    /// A click on a disk: it is chosen unless it is the one the system was
    /// booted from (such a disk offers no click).
    pub fn choose_disk(&mut self, index: usize)
        ensures
            final(self).selected == if index < old(self).disks@.len()
                && !old(self).disks@[index as int].is_live {
                index
            } else {
                old(self).selected
            },
            final(self).disks == old(self).disks,
            final(self).disk_error == old(self).disk_error,
            final(self).same_settings(*old(self)),
            final(self).same_net(*old(self)),
            final(self).same_install(*old(self)),
            final(self).same_steps(*old(self)),
    {
        if index < self.disks.len() && !self.disks[index].is_live {
            self.selected = index;
        }
    }

    /// A double click on a disk: chosen, and on to the display page.
    pub fn open_disk(&mut self, index: usize)
        ensures
            index < old(self).disks@.len() && !old(self).disks@[index as int].is_live ==> {
                &&& final(self).selected == index
                &&& final(self).step == Step::Display
            },
            !(index < old(self).disks@.len() && !old(self).disks@[index as int].is_live)
                ==> final(self).selected == old(self).selected && final(self).step == old(
                self,
            ).step,
            final(self).last_step == old(self).last_step,
            final(self).disks == old(self).disks,
            final(self).disk_error == old(self).disk_error,
            final(self).same_settings(*old(self)),
            final(self).same_net(*old(self)),
            final(self).same_install(*old(self)),
    {
        if index < self.disks.len() && !self.disks[index].is_live {
            self.selected = index;
            self.step = Step::Display;
        }
    }

    /// A click on a rotation.
    pub fn choose_rotation(&mut self, rotation: Rotation)
        ensures
            final(self).rotation == rotation,
            final(self).keyboard == old(self).keyboard,
            final(self).confirm_ack == old(self).confirm_ack,
            final(self).dry_run == old(self).dry_run,
            final(self).same_disks(*old(self)),
            final(self).same_net(*old(self)),
            final(self).same_install(*old(self)),
            final(self).same_steps(*old(self)),
    {
        self.rotation = rotation;
    }

    /// A double click on a rotation: chosen, and on to the keyboard page.
    pub fn open_rotation(&mut self, rotation: Rotation)
        ensures
            final(self).rotation == rotation,
            final(self).step == Step::Keyboard,
            final(self).last_step == old(self).last_step,
            final(self).keyboard == old(self).keyboard,
            final(self).confirm_ack == old(self).confirm_ack,
            final(self).dry_run == old(self).dry_run,
            final(self).same_disks(*old(self)),
            final(self).same_net(*old(self)),
            final(self).same_install(*old(self)),
    {
        self.rotation = rotation;
        self.step = Step::Keyboard;
    }

    /// A double click on a layout: chosen (its code handed back for
    /// `setxkbmap`), and on to the Wi-Fi page.
    pub fn open_layout(&mut self, index: usize) -> (r: Option<&'static str>)
        ensures
            index >= LAYOUT_COUNT ==> r is None && final(self).keyboard == old(self).keyboard,
            index < LAYOUT_COUNT ==> {
                &&& final(self).keyboard == index
                &&& r matches Some(c) && c@ == layout_code(index as int)
            },
            final(self).step == Step::Network,
            final(self).last_step == old(self).last_step,
            final(self).rotation == old(self).rotation,
            final(self).confirm_ack == old(self).confirm_ack,
            final(self).dry_run == old(self).dry_run,
            final(self).same_disks(*old(self)),
            final(self).same_net(*old(self)),
            final(self).same_install(*old(self)),
    {
        let r = self.set_keyboard(index);
        self.step = Step::Network;
        r
    }

    /// A click on a network: chosen, and the password typed is dropped when
    /// the choice changes.
    pub fn choose_network(&mut self, index: usize)
        ensures
            final(self).net_selected == Some(index),
            old(self).net_selected == Some(index) ==> final(self).net_password == old(
                self,
            ).net_password,
            old(self).net_selected != Some(index) ==> final(self).net_password@ == Seq::<
                char,
            >::empty(),
            final(self).networks == old(self).networks,
            final(self).net_status == old(self).net_status,
            final(self).net_connected == old(self).net_connected,
            final(self).scanning == old(self).scanning,
            final(self).connecting == old(self).connecting,
            final(self).connecting_ssid == old(self).connecting_ssid,
            final(self).same_disks(*old(self)),
            final(self).same_settings(*old(self)),
            final(self).same_install(*old(self)),
            final(self).same_steps(*old(self)),
    {
        let same = match self.net_selected {
            Some(i) => i == index,
            None => false,
        };
        if !same {
            self.net_password = String::new();
        }
        self.net_selected = Some(index);
    }

    /// How the Wi-Fi page offers to connect: not at all without a chosen
    /// network or once connected, else with a password field for a secured
    /// network and a plain button for an open one.
    pub fn connect_prompt(&self) -> (p: ConnectPrompt)
        ensures
            p == match self.net_selected {
                Some(i) if i < self.networks@.len() => {
                    if self.net_status is Connected {
                        ConnectPrompt::Hidden
                    } else if self.networks@[i as int].secured {
                        ConnectPrompt::Password
                    } else {
                        ConnectPrompt::Open
                    }
                },
                _ => ConnectPrompt::Hidden,
            },
    {
        let i = match self.net_selected {
            Some(i) => i,
            None => {
                return ConnectPrompt::Hidden;
            },
        };
        if i >= self.networks.len() {
            return ConnectPrompt::Hidden;
        }
        match self.net_status {
            NetStatus::Connected(_) => ConnectPrompt::Hidden,
            _ => if self.networks[i].secured {
                ConnectPrompt::Password
            } else {
                ConnectPrompt::Open
            },
        }
    }
}


/// A Back button undoes a Continue button, and a Continue button (with an
/// installable disk chosen) undoes a Back button.
pub proof fn lemma_back_undoes_advance(s: Step, installable: bool)
    ensures
        next_of(s, installable) matches Some(n) ==> back_of(n) == Some(s),
        back_of(s) matches Some(b) ==> next_of(b, true) == Some(s),
{
}

/// After a listing the wizard chooses the first disk that the system was not
/// booted from, when there is one.
pub proof fn lemma_initial_selection(ds: Seq<Disk>)
    ensures
        ds.len() > 0 ==> 0 <= initial_selection(ds) < ds.len(),
        (exists|k: int| 0 <= k < ds.len() && !(#[trigger] ds[k]).is_live) ==> {
            &&& !ds[initial_selection(ds)].is_live
            &&& forall|k: int| 0 <= k < initial_selection(ds) ==> (#[trigger] ds[k]).is_live
        },
{
    lemma_first_not_live(ds);
    if exists|k: int| 0 <= k < ds.len() && !(#[trigger] ds[k]).is_live {
        let k = choose|k: int| 0 <= k < ds.len() && !(#[trigger] ds[k]).is_live;
        if first_not_live(ds) >= ds.len() {
            assert(ds[k].is_live);
        }
    }
}

} // verus!
