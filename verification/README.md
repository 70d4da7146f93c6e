# yongkey

Tools for building Cangjie-based input-method tables: reading dictionary and
spelling tables, rearranging the keys of a keyboard layout (swap tables),
turning dictionaries into spell tables with make-word specifiers, and
searching for layouts whose spells break fewer key chains.

The library in `src/` is written in Verus: every function carries a
`requires`/`ensures` contract over a mathematical model of its data, and the
contracts are proved. Calls into outside crates (`pinyin`,
`permutation_iterator`, `itertools`, and a few `std` functions) go through
small trusted wrappers whose contracts say what the crates document.

Modules:

- `text`, `cmap`, `dict`, `util`: characters and strings, maps of characters,
  dictionaries kept as vectors in insertion order, sorting and grouping.
- `parser`, `kt`: the line formats of the tables and the dictionaries read from them.
- `py`, `yubi`, `spell`: pinyin readings, shuangpin tables, fluent key pairs, spelling rules.
- `out`: spell tables and the translators that turn a dictionary into one.
- `swap`, `chain`, `repeat`: swap tables, layout search, scoring and the records it keeps.
- `sta`: statistics of spell tables and of key chains.

`app/` holds the command line front end: reading and writing files, running
the search loops, timing and printing.
