# OmaKeys

A keyboard-driven mouse replacement for Hyprland and other wlroots compositors.

- **Grid mode** lays a grid over the screen. Two keys pick a cell; where the keys lie on the keyboard
  is where the cell lies on the screen.
- **Hint mode** looks for buttons, text fields, scrollables and terminals in the accessibility tree,
  and for panels in a screenshot, and labels each of them. Typing a label clicks its target.

The library, under `src/`, is written in Verus: what every function returns or changes is stated in
its contract and proved. The program around it, under `app/`, talks to the desktop: it shows windows,
reads the accessibility bus, takes screenshots, moves the pointer, and does what the library says.

## The library

| Module | What it holds |
|---|---|
| `units`, `text`, `sorting` | subpixels, decimals, stable sorting |
| `grid` | the two-key codes and the cells that they stand for |
| `hints` | labels for targets |
| `overlay`, `overlay_laws` | what each key and each event does, and what holds throughout |
| `drawing` | what is drawn, step by step |
| `atspi_scan`, `app_scan` | the walk over the accessibility tree |
| `active_monitor`, `outputs`, `pointer`, `screencap` | monitors, outputs, pointer requests, screenshots |
| `vision` | lines, panels and boxes in a grayscale picture |
| `canvas`, `fullscan_viz`, `growth_viz`, `demo` | animations of two of the detectors |
| `config`, `cheat_sheet`, `settings_tui`, `ipc` | settings, menus, commands to the daemon |

Positions and sizes on the screen are integers: subpixels, of which there are 450 to a pixel, so that
the corners and the centers of all cells are exact. A few functions call the `image` and `imageproc`
crates; what is relied on of those calls is stated beside each of them.

## The program

```
omakeys daemon                 owns the overlay; start it once per session
omakeys toggle | hints | menu  tell the daemon to open or close something
omakeys settings               the settings in a terminal
omakeys quit                   tell the daemon to stop
omakeys visualize-growth --x 0 --y 0 --width 640 --height 480
omakeys visualize-fullscan --x 0 --y 0 --width 640 --height 480 [--check peak|uniformity]
omakeys visualize-fullscan-demo --demo band|uniform [--check peak|uniformity]
```

`wtype` has to be on the `PATH`: it types the character that ended a positioning into whatever was
clicked.
