# AptTools

A verified library for EA's **APT** file format, the SWF-derived in-game UI format of
games built on the SAGE/RNA engines, and for converting APT movies to SWF and back.

An APT movie is a family of files with one base name: `.apt` (a memory image of
characters, frames and actions), `.const` (constant table and entry point),
`<base>_geometry/<index>.ru` (shape geometry) and `.dat` (texture map).

## Layout

- `src/apt` - reading and writing `.apt` and `.const`, both pointer sizes, coupled and
  decoupled; the action-stream model. `parsing`, `decode`, `writing` and `encode` say
  what reading and writing mean, `parse`, `actions` and `write` do it.
- `src/apt_aux` - `.ru` geometry, `.dat` texture maps, textures and atlases.
- `src/apt_convert` - APT to SWF and SWF to APT: bytecode, timelines, shapes, bitmaps,
  imports.
- `src/paths`, `src/text` - paths and texts.
- `app` - the command line: files, the encoding of SWF tags, floating point.
- `tests` - tests on concrete values.

## What holds

Besides the contracts of the functions, `law_*` proof functions state what relates them:
a movie that was read is written and read again as it was (`apt::laws`), constants come
in the order in which an engine resolves them (`apt::ordering`), geometry and texture
maps come back from their texts (`apt_aux::ru_laws`, `apt_aux::dat`), lowered action
streams can be read, and plain ones come back as they were (`apt_convert::lowered`,
`apt_convert::bridge`, `apt_convert::spelled`), every import is inlined or listed
(`apt_convert::merging`), and the movies that are converted are those that are imported
(`apt_convert::walking`).

Coordinates are kept as the bit patterns of single-precision floats: the library moves
them, and the application computes with them.
