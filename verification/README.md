# morg

A verified library for morg-mode documents: markdown extended with `#tag`
metadata for planning, time tracking, task management and literate
programming.

- `src/` is the library, written in Verus.  The line lexer and the inline
  tokenizer, the block parser (the positions where blocks start, each
  block's content with a heading's property drawer, the frontmatter text,
  the link table and the parse errors are stated), tag
  grammars, HTML export, the iCalendar components, linting, agenda, todos,
  clock reports, the tag walk with its inheritance, tangling, archiving,
  refiling, diary, capture and its configuration carry contracts over
  mathematical models (`Seq`, `Map`, spec functions).
- `tests/` holds the executable tests.
- `app/` is the command-line program around the library: argument
  handling, reading and writing files, and the calls that need the
  environment or the clock.
