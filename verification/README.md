# faster_paddle

The core of a fast, CPU-only OCR engine over the PP-OCRv6 detection and recognition
models, verified with [Verus](https://github.com/verus-lang/verus), and the Python
module around it.

Everything that is decided or computed on the way from an image to its texts is in
`src/`, with contracts: how an image is brought to the networks, what is made of their
output, and how an engine is set up. The networks themselves run in ONNX Runtime, from
`app/`.

## The library (`src/`)

| module | what it holds |
|---|---|
| `float` | IEEE 754 arithmetic on bit patterns, stated over the reals |
| `resize`, `tensor`, `levels` | bilinear resizing; the planes that a network takes |
| `detect`, `mask`, `components` | the detector's input; its output as a map; the regions of the map |
| `postprocess`, `boxes`, `crop` | regions as boxes; their reading order and bounds; their pixels |
| `recognize`, `plan`, `ctc` | the widths and batches at which crops are read; the text of an output |
| `results`, `run`, `batch` | texts back to crops and images; windows of images; the answer |
| `values`, `engine`, `config` | environment variables; the settings of an engine; what may be asked for |
| `codec`, `base64_text`, `dict`, `assets` | encoded images; base64; the dictionary; the models that are fetched |

Numbers are bit patterns (`F32`, `F64`) whose view is a value over the reals, so that
contracts say which rounded result comes out. The two zeros are one value there.

Public proof functions named `law_..` state what holds across functions: that the ends
of the runs of a region span its convex hull, that every crop is in one batch and gets
its own text, that images read together get what they would get alone, that boxes have
one reading order however they come, that no part of an engine uses more threads than
it was given.

What is believed without proof stands next to the calls that it is about: reading an
image and writing a PNG file (`image`), reading base64 (`base64`) and a JSON list of
strings (`serde_json`). Of the plane geometry, which is a trait (`postprocess::Geometry`),
nothing is believed.

## The Python module (`app/`)

`app/` opens the sessions, hands work to threads, reads the environment, fetches and
keeps the medium models, and binds it all to Python. The image and layout kernels of a
build are set with `install`. The models are read from the directory in
`FASTER_PADDLE_MODELS`, or from `models/`.
