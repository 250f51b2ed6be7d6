# llama_q8

A small runtime for quantized (q8_0) transformer language models, split
into a verified library and a thin program around it.

`src/` (the library, with its contracts and proofs):

- `model` — the seven-field model header: reading and writing it, and the
  configuration it describes.
- `layout` — where every tensor lies in a quantized or unquantized model
  file, each layer's share of the per-layer tensors, and the addressing of
  the key/value caches.
- `tokenizer` — the binary vocabulary format, byte-level BPE encoding with
  the `<0xXX>` byte fallback, and decoding.
- `float_bits` — IEEE 754 comparison on single-precision bit patterns,
  greedy sampling, and bfloat16 widening.
- `chat` — what a line of input asks for, the chat templates, the course
  of one reply as a state machine (feed the prompt, generate, stop), the
  tokens and texts that end a reply, and the window of recent output
  searched for stop sequences.
- `convert` — tensor lookup in safetensors files (a header whose data
  offsets are too large for the size sum is refused before parsing) and
  the bfloat16 conversion used when converting a checkpoint.

`app/` holds the floating-point kernels, the forward pass, file mapping and
the command-line programs (chat, checkpoint conversion, quantization, GPU
and tokenizer checks).
