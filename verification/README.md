# tinylm

A tiny word-level language model with a verified library: text becomes
tokens, tokens become numbers, a gated recurrent network learns what comes
next by backpropagation through time, and its own predictions are sampled to
write new text. A smaller feedforward model with a fixed window of context
stands beside it.

## Layout

The library, under `src/`, is verified with Verus.

| Modules | What they hold |
|---|---|
| `strings`, `tokenizer`, `vocabulary`, `ranking` | text to tokens and back, and the numbering of tokens |
| `scalar`, `dense`, `pointwise` | the numbers that models compute with, and the products and functions they are built from |
| `model`, `bptt` | the recurrent model, its gradients and its weight update |
| `windowed` | the fixed-context model |
| `chance` | random numbers |
| `generate` | reshaping distributions, sampling, writing text |
| `training` | chunks, batches, schedules and measurements |
| `reals`, `ordered`, `dual` | real numbers, the same in their order, and dual numbers |
| `derivative`, `entropy`, `gradient`, `window_gradient`, `balance`, `descent`, `batches`, `gates`, `sampling`, `course` | what holds of all this |
| `limits`, `calculus`, `trigonometry`, `related`, `paths`, `slopes`, `weights` | why the rates that dual numbers carry are derivatives |

Models are written over any number type with the operations of
`scalar::Scalar`. Their contracts say, over the same operations in
specifications (`scalar::Number`), which of them are applied to which values
and in which order. The real numbers, dual numbers over them and numbers that
move in time are verified number types. Read over these, the models have the
laws that the arithmetic is meant to follow.

- `gradient::law_gradients_are_derivatives` says that the gradients are the
  rate of the cross-entropy, for every model, text and direction.
- `slopes::law_gradients_are_limits_of_difference_quotients` says that this
  rate is the limit of its difference quotients, and
  `weights::law_each_gradient_is_within_any_tolerance` says it of each weight.
- `ordered::law_temperature_divides_the_logits` says that sampling at a
  temperature is sampling from the logits divided by it, as long as no
  probability is below `1e-12`, and
  `ordered::law_only_allowed_tokens_are_written` that a top-k of 1 or more and
  top-p are kept to.

That there is an exponential function that reaches every positive number, and a
cosine that comes to 0, rests on the completeness of the real numbers, which
proofs here do not have. Laws that need it name it as a hypothesis: limits of
difference quotients and temperatures assume `reals::exponential_is_complete()`,
and that the learning rate ends at a tenth assumes
`reals::cosine_is_complete()`. Both are true.

The floating-point types of `app/` and `tests/` are not verified. The contracts
hold of a run with them as far as their operations are functions of their
operands; how rounding makes their results differ from those of the real
numbers is not stated.

`app/` is the command line around the library, not verified: arguments, files,
threads and the floating-point types. `tinylm --help` lists its options, `tinylm fixed-context
--help` those of the fixed-context model.
