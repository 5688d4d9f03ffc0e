# tbtool

A toolbox launcher's core, verified with Verus: the encrypted EDB record
database and EDT page table formats, INI settings files, tool catalogs,
skin packages, launch decisions and hardware reports.

## Layout

- `src/` is the verified library. Every function there carries a contract
  that Verus proves; calls into `encoding_rs`, `md-5`, `zip` and std that
  cannot be proved stand behind small trusted wrappers whose contracts are
  written out in their doc comments.
  - `edb/`: byte helpers, the RC4 stream cipher and password verifier, file
    headers, the record database, the page table and its free list, with
    round-trip laws for reading and writing both formats.
  - `ini.rs`, `ini_roundtrip.rs`: INI documents, with laws on reading after
    setting and on reading back what was written.
  - `catalog.rs`, `launcher.rs`: tool lists, packaged path normalisation and
    the checks that keep launched tools inside the tools directory.
  - `skin.rs`, `skin_archive.rs`: skin assets, manifests and packages read
    from zip archives.
  - `hardware.rs`, `settings.rs`, `sidebar.rs`, `text.rs`: report texts,
    WMI value formatting, settings switches, the sidebar and text encodings.
- `tests/` exercises the library on concrete inputs.
- `app/` is the Windows program around it: the Win32 window, WMI queries,
  file and process I/O, and the `edb-inspect` command.
