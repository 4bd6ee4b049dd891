# Election prediction

Predicts the outcome of a multi-block validator election: from the snapshots of the chain, or
from snapshots simulated out of live staking data, to the ranked list of validators that would
be active, with statistics of their stakes.

- `src/` is the library. Every item but the three calls named below is verified with Verus.
  - `account`, `account_map`, `text`: accounts, an ordered map keyed by them, their text form.
  - `types`: the data of a prediction.
  - `snapshot`: target snapshot and bounded voter pages from live data.
  - `assignments`, `tally`, `ranking`, `results`, `prediction`: from a paged solution to the
    reported prediction.
  - `nominators`, `stream`, `batches`: which accounts are nominators, and the two ways of
    fetching them, as step functions.
  - `command`: the decisions of the predict command.
  - `laws`, `membership`: what holds of every prediction, and where its validators come from.
- `app/` is the program around it: the node, the miner and the files.
- `tests/` runs the library on concrete values.

## What is trusted

Three calls into other crates are believed to do what their contracts say:

- `hex::encode` writes two lower-case digits for each byte,
- the SCALE encoding of an `AccountId32` is its 32 bytes,
- `chrono::Utc::now().to_rfc3339()` writes an instant in coordinated universal time, in the form
  `1996-12-19T16:39:57+00:00`; which instant it is rests on the clock.
