# grleconvert

Converts between PNG images and the density map formats of the GIANTS engine: GRLE files, which hold
info layers, and GDM files, which hold detail and foliage layers. The parameters of a layer are looked
up in the i3d file of its map.

`src/` is the library. Its functions are verified with Verus.

- `rle`, `grle`: the run length encoding of GRLE files, and the files.
- `gdm_block`, `gdm_encode`, `gdm_decode`: the blocks of GDM files, and the files.
- `png_file`: PNG files, through the `png` crate.
- `convert`: conversion of whole files.
- `i3d`, `layer`: what an i3d file says of a layer.
- `cli`: what the command line asks for.
- `text`, `names`, `bytes`, `bits`, `grid`: what the others are built on.
- `rle_laws`, `gdm_block_laws`, `gdm_laws`, `convert_laws`: what reading gives back of what was
  written.

`app/` is the program around it: arguments, files, directories and messages. `tests/` runs the library
on concrete values.

Two things are lost on the way, and the laws say exactly when. A GRLE image whose last pixel differs
from the one before it comes back with zero in its place. A GDM range of 11, 13, 14 or 15 channels
can lose high bits of a value where a chunk has more than four values, and one of 16 or more cannot be
read there.
