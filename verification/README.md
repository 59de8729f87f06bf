# talimist

Serving Typst documents to readers in a browser and to agents, and previewing them for an
editor.

- `src/` is the library: what a request is about, what is written into a document and its
  annotations, how a rendering is labelled and mapped, where marks go on a page, and what is
  answered. Every function in it has a contract, and Verus proves it.
- `tests/` runs the library on examples.
- `app/` is the program around it: files, sockets, processes, drawing. What only a typesetter
  can say is asked through the traits in `app/edge.rs`.

Lengths on a page are whole numbers of units, so many to the point; the program turns them
into points where it meets a page.
