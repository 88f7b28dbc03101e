# shp_decoder

Converts the frames of Westwood SHP sprite files into RGBA images, with the
colours of a PAL palette, and writes them out as PNG files.

- `src/` is the library, verified with Verus: little-endian reads
  (`bytes`), palettes (`palette`), the SHP file header (`shp_header`), frame
  headers, raw and run-length encoded frame data and their rendering
  (`shp_frame`), whole files (`shp_reader`), output file names
  (`output_name`), the form's decisions (`selection`) and the saved settings
  (`config`).
- `app/` is the command-line program around it: it reads and writes files,
  keeps the settings as JSON and encodes the PNG images.
- `tests/` runs the library on concrete files.
