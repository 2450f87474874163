# Wayfrost

Native text extraction for GNOME and Wayland: the screen freezes, a region of it is framed, and
the text inside is selected and copied.

## Layout

- `src/` is the library, verified with Verus. Every function states what it returns, and Verus
  proves it; the functions named `law_…` state what holds of several functions together.
  - `rounding`, `datum`, `float`, `accuracy`, `big`, `decimal`: floating-point numbers by their
    bits, with the arithmetic of IEEE 754, and numbers read from text.
  - `sorting`, `text`: stable orders; trimming, splitting and counting.
  - `picture`, `png`: pictures of samples of one or two bytes, over the `image` crate, and which
    PNG files its decoder can be handed.
  - `capture`: the order of the screen-capture backends and what is made of their answers.
  - `ocr`: preparing pictures, finding boxes and rows of text, decoding what the models answer,
    reading Tesseract's tables, putting words in reading order, and setting the models up.
  - `overlay`: framing, selecting, drawing, copying and keys.
- `tests/` runs the library on concrete values.
- `app/` is the program around it: the GTK window, the ONNX sessions, the subprocesses and the
  files.

## What is trusted

Calls into `image` and two functions of the standard library stand behind small functions marked
`external_body` or behind an `assume_specification`; the comment above each says what it claims.
Where a result takes pages to state (a scaled picture, the bytes of a PNG file, the picture that a
PNG file holds, text repaired from bytes), it is named and not described.
