# oj

An online judge: users submit source code for configured problems, the server
compiles and runs it on each case, compares the output with the answer and
keeps the verdicts for job listings and contest rank lists.

## Layout

- `src/` — the library, verified with Verus.
  - `api_analysis.rs`: the request and response model, the job filter of a
    job listing.
  - `time_format.rs`: the time format of jobs and contests, read through chrono.
  - `config_analysis.rs`: the configuration model and the normalisation of
    outputs for the standard comparison.
  - `trail_terminal.rs`: judging a job step by step (compilation, each case,
    special judge, packing, final verdict), commands and working paths.
  - `records.rs`: the records of judged submissions that rank lists read.
  - `ranking.rs`: rank-list order, ranks, tie-breaker keys, chosen scores and
    the fastest case times of problems scored by running time.
  - `server.rs`: the server's state and the rules by which it accepts users,
    contests and jobs, finds jobs and reads its command line.
  - `client.rs`: what the terminal client reads from its user.
  - `laws.rs`: properties that span several functions.
- `tests/` — tests of the library.
- `app/` — the HTTP server, the terminal client, file storage, process
  handling and the floating-point scores, around the library.
