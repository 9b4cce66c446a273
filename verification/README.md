# strack

Static stack analysis for embedded C compiled with arm-none-eabi-gcc.

For each object file given, strack reads the stack usage of every function
from the `.su` file gcc writes beside it (`-fstack-usage`), and the calls each
function makes from the disassembly that `arm-none-eabi-objdump -drw` prints.
It links the functions into one call graph and computes, for every function,
the worst-case stack usage of a call to it together with the chain of calls
that reaches it. Functions whose own usage is unknown, that reach such a
function, or that take part in recursion have no known worst case.

## Usage

    strack <strack dir> analyze object1.o object2.o ...
    strack <strack dir> report

The settings are read from `<strack dir>/in/strack_config.json`; the results
are written under `<strack dir>/local` and `<strack dir>/out`
(`strack_report.json` holds the summary).

## Layout

- `src/` is the library, verified with Verus:
  - `text.rs`: lines, splitting, joining, substring search, string order;
  - `symtab.rs`: tables keyed by symbol name;
  - `stack_usage.rs`: reading `.su` files;
  - `call_graph.rs`: reading the call graph out of a disassembly;
  - `fn_node.rs`: function nodes and path names;
  - `analyze.rs`: linking nodes and computing worst-case stack usage, with
    the laws that the computation obeys;
  - `report.rs`: the summary of an analysis;
  - `config.rs`: settings and the paths of the files of a run.
- `app/` is the command-line program: file and process I/O, JSON, logging
  and the printed table.
- `tests/` exercises the library on small inputs.
