# romm_fuse

A read-only FUSE filesystem that presents a RomM instance's ROM library as a
plain directory tree (for MiSTer, RetroArch, EmulationStation and the like).

- `src/` is the verified library (Verus): the directory tree and what each
  filesystem operation answers (`fs::tree`, `fs::romm_fs`), the inode table
  (`fs::inodes`), the chunk cache's names, LRU order, read planning and
  assembly (`fs::cache`), configuration resolution and profiles (`config`,
  `profiles`), the shape of RomM API requests (`api`), and RomM's
  timestamps read as seconds since the epoch (`timestamp`).
- `app/` is the program around it: command-line parsing, the config file and
  prompts, HTTP, the chunk files on disk, and the FUSE session.
- `tests/` exercises the library on concrete values.
