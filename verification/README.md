# zero_kernel

The decisions of a small bare-metal kernel that runs language models, as a Verus
library: firmware tables, interrupt controllers, device scan, drive driver,
startup of further cores, page tables, text output, and the order and addresses
of every step of a forward pass. Each function states in its contract what it
returns, and Verus proves it.

- `src/arch/x86_64`, `src/arch/aarch64`: the two machines. Functions return the
  port, register and memory operations to perform, or read what was read.
- `src/drivers`: the drive driver as a dialogue of questions and answers.
- `src/inference_avx512*`: which kernel runs on which elements in which order;
  `src/arch/*/math` gives every multiply-add of the matrix kernels, and
  `exact.rs` proves that fused and parallel plans compute the same bits.
- `src/bench*`, `src/control_plane.rs`, `src/nvme_layout.rs`: reports, the shell's
  answers, and the place of the model on the drive.
- `app/`: the machine side. It touches ports, registers and memory, forms the
  floating-point sums, and carries out what the library decides.
- `tests/`: the library on concrete values.

What is believed without proof stands in `src/arch/aarch64/dtb.rs` (the device
tree reader), `src/arch/x86_64/gdt.rs` (the descriptor table) and `src/text.rs`
(`String::push`), each with a comment that says what is claimed.
