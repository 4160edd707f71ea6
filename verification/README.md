# installer_gui

A graphical installer for the Arcader kiosk system: a wizard that picks a
target disk, the screen rotation, a keyboard layout and optionally a Wi-Fi
network, then runs the install backend and follows its progress.

The crate is split in two:

- `src/` is the library, verified with Verus. It holds the wizard's state
  machine (`wizard`), the disk listing and its size formatting (`disks`), the
  Wi-Fi listing and its merging and ordering (`net`), the backend's command
  line and progress lines (`install`), the focus, step indicator and icon
  choices of the pages (`ui`, `theme`), a verified stable sort (`sorting`) and
  the text helpers they share (`text`). Each public function states in its
  contract what it returns or changes; the laws that span functions are public
  proof functions.
- `app/` is the program around it: the egui/eframe window and its drawing,
  the commands it runs (`lsblk`, `nmcli`, `setxkbmap`, the backend), the
  threads that wait for them, and the floating-point geometry of the pages.
  It feeds the wizard the results as events and carries out what the wizard
  asks for.

The pictures the welcome page and the background use are read at start-up
from `/usr/share/arcader-installer/`; a blank texture stands in when one is
missing.
