# invoice_payables

An accounts-payable review tool: invoices of a month with their due dates
computed from each supplier's payment terms, a settings page for the terms,
and a ledger of invoices marked as paid.

- `src/` is the library, verified with Verus: supplier payment terms and due
  dates (`supplier_config`, `calendar`), the paid ledger (`paid_ledger`),
  shaping of database rows, the invoice query and the reading of the
  connection string (`db`), request decisions (`server`), configuration
  defaults (`config`), and text helpers (`text`).
- `app/` is the program around it: the web server and its handlers, the
  database pool and its queries, and the files the application reads and
  writes.
- `tests/` exercises the library on concrete values.
