# spark_model

The host side of the DeepSeek-V4.1 Flash layers, verified with Verus.

* `src/` is the library. Floats are bit patterns there; it orders, copies and
  rounds them. Work for the device is appended to a command queue, and every
  function says which commands it appends.
  * `float_bits`, `bytes`, `quant`: floats as bit patterns, their encodings, and
    rounding to bf16 and onto the e2m1 grid.
  * `topk`, `select`, `index_select`: the top-k selection, candidate blocks, and
    the compressed positions that each query attends.
  * `window`, `compress`: the host's model of an attention layer: the ring of
    latent rows, the compressor's partial group, the caches, and what source
    layers publish.
  * `device`, `device_memory`: commands, and what transfers do to memory.
  * `attn_cfg`, `attn_steps`, `attn`, `attn_memory`, `attn_laws`: the attention
    layers on the device, and how they agree with the host's model.
  * `moe`, `moe_route`, `moe_plan`, `moe_laws`: the router, the grouping of
    assignments by expert, and the experts on the device.
  * `names`, `store`, `loader`, `loader_laws`: putting a model together from its
    tensors.
* `tests/` runs the library on concrete values.
* `app/` is ordinary Rust around it: the driver that carries commands out, the
  floating-point arithmetic, files and settings.
