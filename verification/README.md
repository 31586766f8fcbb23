# pillow

A bytecode toolchain and virtual machine for the Pillow language, with its
behaviour stated in contracts and proved with Verus.

- `src/value.rs`: NaN-boxed values (floats, nil, bools, 48-bit ints, heap objects).
- `src/opcode.rs`: the instruction set.
- `src/pack/`: the bytecode file format (header, instruction section, constant pool).
- `src/assembler/`: the assembly language: a parser for its text, the
  assembler, the disassembler, and the proof that a disassembly lists back
  what the assembler wrote.
- `src/heap/`: the allocator and collector interfaces, a bump allocator, an
  allocator with one buffer per allocation, a mark-and-sweep collector and a
  reference-counting collector.
- `src/vm.rs`, `src/vm/`: the machine. `Vm::step` executes one instruction;
  floating-point arithmetic is handed to the caller as a `Step::Float`
  request and its result given back with `resume_number` or `resume_truth`.
- `src/config.rs`: the default heap configuration.
- `app/`: the command-line runner, which loads a file, runs the machine and
  does its floating-point work.
