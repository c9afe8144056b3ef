# axcli

Queries, selectors and locators on the accessibility elements of macOS, and a
command line tool around them.

- `src/` is the library. It works on a snapshot of the elements and is verified
  with Verus: every function states what it returns, and the laws that relate
  functions stand beside them as proof functions.
- `app/` is the command line tool. It reads the snapshot from the system, asks the
  library what to do, and does it.
- `tests/` runs the library on small trees.

A locator is a chain of selectors:

    AXWindow[title="Main"] >> .item:has-text("Mary") > AXButton >> nth=0
