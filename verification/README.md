# pcf

The Pixel-Clustering image Format: an image is stored as its size, its most
frequent color as background, and for each other color the pixels it covers,
grouped by column and written with sums and repeat counts (`0+1*9999`).

`src/` is the verified library:

- `image`, `color`: the RGBA image and the stored color text.
- `math`, `number`, `text`: the coordinate notation and the text helpers.
- `group`, `sort`, `encode`: grouping the pixels and writing the text.
- `patterns`, `restore`: compressing the text by its best pattern, and
  undoing it.
- `decode`: reading the text back and painting it.
- `dither`: the lossy step.
- `menu`: the terminal menu's state machine.
- `roundtrip`, `lossless`: the laws that decoding gives back what encoding
  wrote.
- `data`: the size measurements of the test images and their stored form.

The lossless round trip is stated by `decode_text`: a text that the encoder
wrote for an image decodes to that image's size and to pixels that, painted on
the background, give the image back. The proof (`law_lossless`) needs what the
JSON reader does with the dictionaries of that text (`decode_json_read`); the
trusted wrapper of `json::parse` states it of each call, and `decode_text`
makes those calls, so its contract holds with no premise.

Grouping keeps its groups in vectors in first-occurrence order rather than in
hash maps. A hash map's walk order is seeded per process, which would leave
the order of the encoded chunks open, and several keys are strings, on which
vstd proves nothing of a map's lookups (see `group`).

`app/` is the program around it: files, the byte compressor, the terminal
menu and the window.
