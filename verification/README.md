# residuality

A command-line companion for Residuality Theory: the architecture's
components and stressors live in two CSV files, and the tool derives the
incidence matrix, the contagion findings and the empirical test metrics from
them.

The logic is a Verus library, proved against its contracts:

- `src/model.rs`: components, stressors, test stressors, the incidence
  matrix, and the sorted id sets of the `affected_components` and
  `covered_by` cells (reading and writing such a cell).
- `src/analysis/matrix.rs`: building the incidence matrix, row and column
  totals, the stressors and components above the mean, hidden coupling,
  merge candidates and untouched components, with the laws that relate them.
- `src/commands/`: validation of the lists, numbering of new stressors,
  evaluation of an empirical test, and the Markdown contagion report.
- `src/storage.rs`, `src/views/`: the rows of the matrix export, report
  paths, and the layout of the printed matrix.
- `src/text.rs`: trimming, the order of strings, decimal numbers, splitting
  and joining.

`app/` holds the program around it: argument parsing (clap), prompts
(inquire), CSV files (csv, serde) and the clock (chrono).
