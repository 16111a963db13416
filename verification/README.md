# gst_bill

The logic of a client-side GST invoice generator, written in Verus and
proved against its contracts.

- `src/text.rs`: Unicode white space, trimming, splitting, decimal numerals
  and integer parsing over `Seq<char>`.
- `src/logic.rs`: calendar dates (`Ymd`), leap years, month lengths, the
  previous month, the Indian financial year, month names, the display form of
  numeric fields and percent-encoding, with the round trips
  `parse(fmt(d)) == Some(d)` and `decode(encode(bytes)) == bytes`.
- `src/config.rs`: the settings, their placeholder defaults and the choice
  between stored settings and defaults.
- `src/export.rs`: the standalone HTML document, its `data:` URL and the
  suggested file name.
- `src/invoice.rs`: the draft of a new invoice, the guessed invoice number,
  the invoice-number field's response to the user's inputs (a number typed by
  hand is never overwritten by guessing) and the number's display form.
- `app/`: the Leptos user interface, the browser clock, localStorage, JSON,
  the download and the floating-point amounts.
- `tests/`: tests of the library, many of them against the standard library's
  own parsing and formatting.
