# paperlite

The logic of a wallpaper browser and manager, verified with Verus.

- `src/` is the verified library: display modes and the Windows desktop
  settings they map to (`backend`), the settings and their recent-folder list
  (`config`), file names and extensions (`paths`), scanned items and their
  size, resolution and aspect-ratio texts (`scanner`, with the exact `f64`
  accounts in `numfmt`), search and order of the gallery (`ordering`), the
  gallery's state and decisions (`gallery`), window texts (`display`) and the
  command line (`cli`). `text` holds the string helpers they share.
- `app/` is the program around it: the window (eframe/egui), folder walking,
  image decoding, the settings file, and the platform calls that set the
  wallpaper.
- `tests/` exercises the library on concrete values.
