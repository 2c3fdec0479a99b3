# qfactors

Panel layout, structural validation and computation planning for
cross-sectional factor research, with machine-checked contracts.

`src/` is the verified library. Tables are modelled as `frame::Frame`: named
columns of cells, floats held by their IEEE-754 bits. On that model the library

- prepares a panel (`prepared_panel`): null policy, sort by `(group, time)` or
  check the order, group blocks, time ordinals, requested observation times;
- cuts trailing row windows per group (`obs_range_cache`), with the no
  look-ahead property stated and proved;
- plans factor computations (`compute_panel`): descriptor lookup, input
  aliases, dtype and null checks, output names, distinct windows, result
  checks; runs a plan with a caller's kernel, checking each result as it
  comes back (`compute_run`); and stacks per-observation tables
  (`compute_sink`);
- lays out symbol-by-time grids and cell sets (`grid`, `cellset`) and plans
  alpha computations on them and samples their results at the requested
  times (`compute_alpha`, `alpha_eval::delay`);
- builds alpha expressions (`expr`, `alpha`, `factors`);
- keeps the factor registry (`registry`) and the rules of the `factor`
  attribute and kernel signatures (`factor_attr`, `factor_sig`);
- lists the factors of a saved report (`report`) and reads the evaluation
  options chosen by name (`eval_options`).

`app/` holds what works on polars tables, float kernels and expression
evaluation, token generation for the attribute, and the report server.
`tests/` exercises the library on concrete tables.
