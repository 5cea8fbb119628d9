# rom_builder

A library for assembling ROM images for programmable memory chips, with its
behaviour stated as Verus contracts and proved, plus a desktop editor around it.

- `src/` — the verified library:
  - `catalog` — the ROM size profiles and target chips, and the bank grid a profile draws on a chip;
  - `bank` — one bank: slots packed from offset 0, padding after them, checksums;
  - `image` — the whole image: placing and removing banks, export, metadata summary, import;
  - `sidecar` — the metadata summary's file name, and reading the slot layout back from it;
  - `placement` — adding, trimming, spreading and replacing ROM files, refilling and removing slots;
  - `choice`, `menus`, `changes`, `paging` — the decisions behind the editor's commands and menus;
  - `table` — the rows of the bank table: unused banks, slots, free space;
  - `project` — the record a project file stores, and loading an image from it;
  - `archive` — the zip archive a project is saved in, built and read in memory;
  - `labels`, `names`, `hexdump`, `text` — text shown to the user;
  - `properties`, `editing_properties` — laws relating several operations.
- `tests/` — tests of the library on concrete values.
- `app/` — the editor: window, dialogs, the file system, and the JSON form of the project record.
