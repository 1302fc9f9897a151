# wmde_settings

The logic of the WMDE settings application, verified with Verus.

- `src/hardware/` builds the hardware report out of what sysfs, procfs, DMI, EDID blobs
  and the hwdata databases hold: PCI and USB trees, disks and partitions, network
  interfaces, firmware facts, displays and the summary block. The caller reads the files;
  everything decided about their contents is here.
- `src/settings/` holds the settings pages' logic: applet setting schemas (label
  languages, slots, which rows survive), an applet page's values and edits, stored RON
  values, application shortcuts and the picker, the panel pages' rules, and the About
  page.
- `src/text.rs`, `src/num.rs`, `src/order.rs`, `src/table.rs` are the text, number,
  ordering and lookup-table building blocks the rest is proved with. Tables keyed by
  numbers are std's `HashMap` and `HashSet`; tables keyed by strings are a vector with
  one entry per key, since vstd specifies hash tables only for primitive keys.
- `app/` is the unverified shell: file, process and socket I/O, floating-point
  formatting, and reading schema and shortcut files with serde. It holds no page
  loops: the panel, applet and shortcuts pages run on the COSMIC toolkit
  (`libcosmic`, `cosmic-config`, `cosmic-panel-config`, `cosmic-settings-page`), which
  is not published on crates.io and so cannot be built here. The decisions those loops
  make are the step functions in `src/settings/`.
- `tests/` runs the library on concrete inputs.
