# slasher

Recovering asset names from the hashes a game's loader holds. Harvesting produces candidate
strings; this library hashes them the game's way (64-bit FNV-1a, optionally folding case and
slashes) and looks each result up among the wanted ids.

The library in `src/` is written in Verus. Its functions carry contracts that Verus proves,
apart from a few small wrappers around std (sorting, lowercasing, the clock, `String::push`)
whose contracts restate what std documents:

- `hash`, `filter`: the hash and its inverse, and the two-level bitmap that stands in front of
  the id lookup. Laws: peeling undoes feeding, feeding in pieces is feeding whole, spellings that
  normalise alike hash alike, and the filter never turns away an id it was built over.
- `search`: the forward search and the peeling search, with the law that they report the same
  rows, each as many times. Both report each wanted candidate once; the peeling search hands
  each batch of endings that found something to a checkpoint as that batch ends. `run_best`
  picks the cheaper of the two.
- `ports`, `adapters`: the backend interface a device implements, the processor backend, the
  sampled cross-check of a device against the processor, the fallback that stands behind a
  device, and the parts of an OpenCL adapter that are decisions rather than driver calls (error
  codes, the test ladder and its expected answers, the choice of device). The adapter that talks
  to a driver is not part of this build.
- `results`, `listing`: the results held per asset type, which only ever grow; the text files
  they are kept in, with the law that what is written reads back as it was.
- `pools`, `names`, `notes`, `offer`, `text`, `order`: the asset pool tables, table endings,
  run notes and stamps, the offer menu, and the text handling they share.

`app/` holds what stands around the library: the file system, the environment, the
terminal, and running a command.
