# vellum

A terminal viewer for markdown, Word documents, spreadsheets, PDFs, images,
video and folders.

- `src/` is the verified library (Verus): markdown to navigable lines with a
  table of contents and links, word wrapping and layout, the one-shot
  terminal renderer, DOCX to markdown, streaming spreadsheet rows, and the
  state machines of the document viewer, the folder browser and the PDF
  pager. Parsers of the outside crates (pulldown-cmark, quick-xml) are reached
  through small trusted wrappers; everything built on their events is proved
  against its contract.
- `app/` is the program around it: the command line, files, archives,
  external tools (poppler, ffmpeg), the terminal event loops and drawing with
  ratatui, and the pixel pane.
- `tests/` exercises the library on concrete inputs.
