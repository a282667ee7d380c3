# linehash

A library and a command line for reading and editing text files by line anchors. Every line of a
file has an anchor: four hexadecimal digits made from a hash of its text, no two lines alike. An
edit names the lines that it changes by their anchors.

The library in `src/` is verified with Verus:

- `text`: lines, line feeds, white space, numbers
- `hash`: the four-digit hash
- `anchors`: the anchors of the lines of a file
- `normalize`: the form in which texts are compared with fuzzy matching
- `edit`: what one edit does to the lines
- `batch`: the order of several edits, and what they make of a file
- `rows`: requests with one edit in each row
- `window`: the part of a file that is shown
- `diff`: the difference between two texts in the unified format
- `command`: the answer to a request to edit
- `laws`: what holds of reading and editing taken together

The library returns `None` where the lines of a file cannot each get an anchor, an edit reaches
past the last line, a changed text has too many different lines to be compared, or more lines are
asked for than can be counted.

`app/` holds the program, which reads and writes files and JSON. `tests/` holds the tests.
