# neonate

Reinforcement learning from scratch: an autograd tape, multilayer perceptrons
trained with Adam, a DQN agent with experience replay, and a Snake game.

The integer core is a Verus library under `src/`, every function proved
against its contract but one: `slice_swap`, a trusted wrapper around std's
`<[T]>::swap` whose contract (the two elements change places) is taken on
trust. The modules:

| Module | What it holds |
|---|---|
| `rand` | seeded xorshift64 generator: raw draws, bounded draws, Fisher-Yates shuffle |
| `grid` | board cells, row-major positions, counting arguments over cells |
| `env` | the Snake rules: reset, moves, growth, crashes, food placement, observation codes, the text board |
| `tensor` | dense arrays: shapes, transpose, element-wise maps, row broadcasts, folds, matrix products over caller-supplied element operations |
| `autograd` | the tape that records a computation graph, and the backward sweep that hands gradients from a loss to every input |
| `nn` | perceptron layout, parameter copies, the recorded forward pass, weight files |
| `weights` | the binary weight-file format: writer, reader and its exact acceptance condition |
| `replay` | the bounded replay memory and its index sampling |
| `dqn` | the agent's update schedule: when to train, when to sync the target network |

Floating-point work stays in `app/`, an ordinary Rust program built on the
library: Gaussian sampling, the float element operations handed to the
library as closures (the gradient rules among them), Adam, the DQN agent's
temporal-difference targets, file access, and the `train` and `play`
commands.

Observations and rewards leave the library as integers: observation codes in
halves and rewards in hundredths, which `app/` scales to floats.
