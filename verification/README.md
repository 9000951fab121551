# cri_archive_lib

CRI `@UTF` tables and CPK archives: reading, writing, and the manifest that
links an unpacked directory to its archive. The library is written in Verus;
what each function does is stated in its contract and proved.

## Layout

- `src/schema`: the sections of an `@UTF` table: header, columns, rows, strings.
- `src/cpk`: archives. `reader` lists and extracts files; `collect`, `index`,
  `layout` and `writer` build archives; `utf` builds tables; `encrypt` holds the
  table cipher and the interface of file transforms, `compress` that of
  decompressors. `utf_laws` and `archive_laws` prove that what is written reads
  back as what it was made of, `collect_laws` that an archive does not depend on
  the order of a listing, and `reader_laws` that bytes in front of an archive
  change nothing of it.
- `src/manifest`: the manifest file, its fields, the paths in it, the file hash,
  and the files to pack for an unpacked directory.
- `src/cli`: the decisions of the command-line tool.
- `src/utils`: bytes, alignment, sorting, text.
- `app`: the command-line tool. It does the input and output.
- `tests`: tests on concrete values.

## What is not proved

The library relies on a few functions from elsewhere, each stated in
`src/utils/text.rs`: the Shift-JIS decoder of `encoding_rs`, UTF-8 validation,
and appending a character to a string.

Archives are read from memory. File transforms are given by an implementation of
`FileDecryptor`, decompression by one of `FileDecompressor`; the library itself
has only those that change nothing.
