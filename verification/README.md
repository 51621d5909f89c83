# eous_modify

The logic of Eous Modify, a mod manager for 3DMigoto/XXMI installs of Zenless Zone Zero, as a
Verus-verified library, with the disk, database and archive work around it in `app/`.

- `src/` is the verified library. Each public function states in `ensures` what it returns, over
  spec functions on `Seq<char>` and friends; the laws that relate several calls are public proof
  functions.
  - `text`, `paths`: trimming, line splitting and joining, and Windows paths as text.
  - `xxmi_config`, `xxmi_cleanup`, `xxmi_config_laws`: the `check_foreground_window` edit of
    `d3dx.ini`, its undoing, and what holds across calls (turning it on twice changes nothing,
    turning it off takes back what turning it on did, line endings are kept).
  - `persisted_vars`: carrying a mod's persisted variables in `d3dx_user.ini` across a toggle.
  - `keybinds`, `image_format`, `images`: reading keybinds from `.ini` text, the image format
    table, and `data:` URLs.
  - `archive`, `scanner`, `seed`: what an import reads from an archive's listing, how the Mods
    folder scan classifies folders, and the built-in definitions sync.
  - `reload`, `launcher`, `elevation`, `toggle`: the decisions around reloading mods in game,
    launching it, elevation, and flipping mods on and off.
- `app/` reads and writes files, the SQLite database and archives (zip, 7z, rar), and hands the
  library plain values.
- `tests/` runs the library on concrete inputs.
