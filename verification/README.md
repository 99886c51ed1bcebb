# disksun

An interactive disk-usage viewer for Linux. A directory is drawn as a pie:
every child is a slice whose angle is its share of the directory, and the rings
further out show what the children hold.

    disksun                    # shows the home directory
    disksun /some/path         # shows /some/path
    disksun --scan /some/path  # writes the tree to stdout
    disksun --scan --cross /   # ... across volumes

## Layout

`src/` is the library, proved with Verus: whatever is decided or computed.

- scanning: `walk`, `usage`, `links`, `mounts`, `paths`, `order`, `tree`, `admin`
- the chart: `layout`, `rings`, `fit`, `fill`, `apart`, `hue`, `paint`
- the side list: `side`, `cursor`
- the viewer: `app`, `look`, `nav`, `labels`, `trash`, `cli`
- text and numbers: `text`, `sizes`, `float`, `double`, `single`, `signed`

Angles, radii, shares and colors are binary32, percentages and sizes binary64.
`float` says what rounding to such a format is, on integers; `single`, `signed`
and `double` compute with it, so that each of those values is the one that the
machine's floating point gives.

The file system is read step by step: `walk::Walk`, `trash::Meter` and
`admin::Wait` say what to read next and take what was read.

`app/` is the program around it: files, threads, the window and its painter.
`tests/` runs the library on concrete values, many of them against the
machine's own floating point.
