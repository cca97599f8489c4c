# nirisaver

A screensaver for Wayland compositors with layer shell: it animates a quote or a
text over every output until a key, a click or a move of the pointer sends it
away.

Everything the program decides or computes is a library whose behaviour is
stated in contracts and proved with Verus. What touches the machine is a thin
layer of ordinary Rust around it.

## The library, `src/`

| module     | what it holds                                                        |
|------------|----------------------------------------------------------------------|
| `chars`    | text as characters: white space, lines, words, fields, numbers       |
| `cli`      | the command line, as plain values                                     |
| `config`   | flags over config file over defaults, resolved exactly once          |
| `damage`   | what changed between two grids, as runs and rectangles               |
| `engine`   | the pool of effects, and the cycle of animation and hold             |
| `grid`     | a grid of styled cells, its checksum and its text                    |
| `headless` | a run without a screen, and its report                               |
| `overlay`  | surfaces, buffers, fades, input and wakeups                          |
| `paths`    | file paths as bytes                                                  |
| `raster`   | cells turned into premultiplied pixels                               |
| `render`   | a frame turned into pixels and a damage report                       |
| `text`     | quotes, wrapping and alignment                                       |
| `vt`       | the engine's frames turned into cells                                |

Properties that relate several functions stand beside them as public proof
functions. Three functions of the standard library are taken at their word:
`String::push`, the `Debug` form of a text, and `String::from_utf8_lossy`. Each
is declared in one place, with what is claimed of it.

## The program, `app/`

The command line and the config file as clap and serde read them, the `ttfx`
animation engine, fonts through `fontdue`, and the Wayland protocol. Floating
point (font metrics, the fade ramp) stays there too. Where no
font is named, the overlay reads the bundled one from
`/usr/share/nirisaver/JetBrainsMono-Regular.otf`.
