# fraud_oxidizer

A card fraud detector for a CSV of card transactions, written in Verus: every function of
the library carries a contract that Verus proves.

- `src/data`: the transaction record, its fields and how each reads from and writes to CSV
  (identifiers, amounts in cents, ISO countries, IPv4/IPv6 addresses, timestamps), the whole
  CSV import and the export with its `likely_fraud` column.
- `src/process`: the fraud factors and their weights, the noisy-OR score
  (`1 - product(1 - weight)`, threshold 0.50), the six detection passes (foreign country
  trip, card testing burst, risky category and category price deviation, card amount
  deviation, merchant ring, fraudulent identity link), the reasons shown for each factor and
  the text report.
- `src/review`: the analyst's workflow without its screen: the review session with
  approve / mark fraud / undo / redo, the table's sorting and card filter, the step
  progression, country labels and the loaded CSV state.
- `app/`: a command line program that reads a file, prints the report, can walk the
  flagged transactions from standard input and writes the reviewed CSV.

Amounts are whole cents, weights and scores thousandths; numbers shown with two decimals
are rounded half up from these. Timestamps are whole seconds and keep a leap second
(`:60`) as `chrono` reads, orders, subtracts and writes it. Foreign trips count physical
payments only; online ones abroad are no trip.
