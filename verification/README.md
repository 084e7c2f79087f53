# deepseek_v4_candle

The DeepSeek-V4 architecture as a verified Rust library: tensors are plain lists of IEEE bit
patterns with a shape, the arithmetic on them is done by [candle](https://github.com/huggingface/candle),
and everything around it is proved with [Verus](https://github.com/verus-lang/verus): shapes,
indices, key selection, routing, weight decoding and the checkpoint format.

| module | what |
| --- | --- |
| `shape`, `tensor`, `bits`, `error` | shapes and broadcasting, tensors, bit patterns |
| `kernel`, `double` | the calls into candle, in single and double precision |
| `ops`, `nn` | elementwise arithmetic, reductions, products, norms, softmax |
| `topk` | the best of a list of scores |
| `rope` | YaRN rotary embeddings |
| `sparse` | key sets of the window and of compressed blocks, `Compressor`, `Indexer` |
| `attention` | sink attention, dense and by key sets, and the attention layer `Mla` |
| `moe` | routing gate, SwiGLU experts, mixture |
| `mhc` | hyper-connections: Sinkhorn mixing of residual streams |
| `block`, `model` | one decoder layer, the language-model head, the model |
| `quant` | FP4, FP8, UE8M0 and BF16 weights |
| `json`, `loader` | safetensors files and the tensors in them |
| `config` | hyper-parameters |
| `layout` | laws: weights of the documented shapes give the documented output shapes |
| `tokens` | laws: hyper-connections, mixture and head act on each token by itself; a mixture sums its experts |
| `queries` | laws: a query attends by itself, and closed keys have no part in its weights |
| `mix`, `causal` | runs on two inputs put together; laws: queries, keys, blocks and selections depend on their own tokens |
| `layer` | laws: up to the weights of each query the attention layer is causal and its window local; a full selection selects nothing |
| `streams` | laws: a decoder layer mixes streams per token and, up to the weights of each query, is causal |

The laws on causality and locality end at the attention weights: they show which keys and which
positions decide the weights of a query. That a key of zero weight leaves the weighted sum of the
values as it is rests on the matrix product, of which no value is stated.

Real numbers cross the interface as bit patterns (`f32::to_bits`, `f64::to_bits`). A result that is
correctly rounded is a function of its operands, up to the payload of a NaN. A result that the math
library or the order of a sum decides is one of the values that a named relation allows.

`app/` holds what is not verified: mapping a checkpoint into memory, reading `config.json`,
conversion from and to candle tensors, and a toy model that can be run. `tests/` runs the library
against values computed independently.

Only the prefill pass is there: no key cache, no tokenizer.
