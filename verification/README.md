# resplice

Splice Rust reimplementations of machine code into an existing binary.

A function or static marked `#[Splice(begin = 0x1670, end = 0x1680)]` is compiled into a section
of its own named `.rspl.<begin>.<end>`, the addresses in hexadecimal. The tool reads those sections
back out of the rlib and patches each one over `[begin, end)` in the target:

- what a replacement refers to (code and read-only data) is collected transitively, injected into
  the target as a new segment, and the references are relocated;
- references to symbols that the target defines, or imports through its PLT, bind to the target;
- a replacement that is larger than its range goes into the segment too, and a jump at `begin`
  leads to it.

```sh
resplice ./original-binary target/release/libyourcrate.rlib ./patched-binary
```

`--inject-base 0x1c0000` places the segment; by default it goes one page above the image.

## Layout

`src/` is verified with Verus. Every function states what it returns for every input; only the
calls into `goblin` (executable images), `object` (archives and object files), `syn` (attribute
syntax) and two functions of `std` are trusted. What `syn` makes of a text depends on the lexer at
work as well, so the two functions that take the text of an attribute state their result for
whichever lexer cut it into tokens.

| module | what it holds |
| --- | --- |
| `bytes`, `word`, `text` | integers in buffers, 64-bit words, numbers as text |
| `arch`, `reloc`, `jump` | architectures, relocations, jumps and NOPs |
| `elf`, `macho`, `image`, `inject`, `binary` | the target: reading it, adding a segment, patching it |
| `section_name`, `attribute`, `cli` | section names, the attribute, the command line |
| `object_file`, `model` | reading the objects of an rlib |
| `closure`, `plan`, `link`, `rlib` | collecting, laying out, relocating, installing |
| `decode`, `layout_laws`, `link_laws`, `segment_laws`, `mapping_laws` | laws about the above |

`tests/` runs the library, and `app/` holds the command line program and the attribute macro's
token handling.
