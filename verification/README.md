# mission-center

The logic of Mission Center's performance page, appearance preferences and "About
this system" window, written in Verus and proved against its contracts.

- `src/sidebar.rs`: the saved order of the performance page's sidebar: the canonical
  device order, merging new devices next to their siblings, pruning devices that are
  gone, drag and drop, reading and writing the saved order, and picking rows to
  select.
- `src/pages.rs`: page names of devices and which pages belong to devices that are gone.
- `src/series.rs`, `src/scaling.rs`: the sample buffers behind the graphs and the
  settings of their value ranges, with the integer part of the power-of-two rounding.
- `src/system_info.rs`: the sections, summary and copied text of the system window.
- `src/kwin_blur.rs`: the KWin blur strength: the helper programs' arguments, reading
  their answers, and the steps of setting a new strength with its rollback.
- `src/blur_region.rs`: the regions a window asks the Wayland compositor to blur.
- `src/text.rs`: characters, order, splitting, joining and number rendering.

`app/` holds what stays outside the proofs: the GTK widgets, the Wayland connection,
running the KWin helper programs, reading sysfs, the settings store and the
floating-point graph geometry and drawing. `tests/` runs the library on examples.
