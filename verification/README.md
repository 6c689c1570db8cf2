# lopdf

A library that reads the structure of PDF files, written in Verus. Every function states what it
returns for every input, and Verus proves it.

## What it reads

- objects, streams, cross-reference tables and streams, and object streams (`parser`, `xref`,
  `object_stream`, `stream_filters`, `filters`)
- whole documents in memory (`document`) and documents read from a source an object at a time
  (`lazy`)
- the page tree (`page_tree`), page labels (`page_labels`, over `number_tree`), the outline
  (`document_outline`, `toc`), links (`page_links`), destinations (`destinations`), and page boxes
  (`page_geometry`)
- page content, a chunk at a time (`page_content`), and its text in runs of one font
  (`page_text_runs`)
- encrypted documents, opened with the security handler that the options give, and encrypted streams,
  decrypted as they are read (`encryption`)

`fixtures` builds documents from plain values, `samples` holds some of them, `writer` writes them, and `parity` compares what this library reads of a
document with what another reader reads of it.

## Laws

Besides each function's own contract, public proof functions state what holds across functions:
that a sorted number tree gives the standard's lower bound (`sorted_tree`), that a name tree gives
what is stored in it (`name_tree`), that an outline is read whole and in reading order
(`outline_order`), that the pages of a document are the leaves of its page tree (`page_order`), that a
page's text read on its own is the text that the whole document gives it (`lazy::page_copy`), that
decryption in pieces gives what it gives whole, that reading a valid deflated stream does not depend
on the sizes asked for (`whole_content`), that text comes back from its encodings, and more, each
beside the functions it speaks of.

## What is trusted

The calls into `aes`, `cbc` and `flate2`, and a few functions of the standard library, stand behind
small wrappers whose doc comments say what is believed of them.

## Layout

- `src/` is the library.
- `tests/` holds its tests.
- `app/` is a program around it that compares the library with pdfium. Files, floating point,
  serialisation, and pdfium itself live there.
