# psftool

Converts PSF bitmap fonts (PSF1 and PSF2, as used by the Linux console) to an
editable BMP image of their glyphs and back.

- `src/` is the library, verified with Verus: PSF parsing and writing
  (`psf`), glyph bitmaps to pixels and back (`glyph`), the glyph grid with
  its red cell separators (`grid`), 24-bit BMP encoding and decoding (`bmp`),
  the byte-to-byte conversions the tool performs (`convert`), and the
  round-trip theorems (`round_trip`). Each module also states and proves its
  own round-trip laws.
- `app/` is the command-line program: file I/O, the JSON sidecar that keeps a
  font's metadata next to its BMP, and argument handling.
- `tests/` exercises the library on concrete fonts and images.

Usage:

```sh
psftool font.psf        # writes font.bmp and font.json
psftool font.bmp        # writes font.psf (needs font.json)
psftool --new --width 16 --height 32 --glyphs 256 myfont.bmp
```
