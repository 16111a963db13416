use gst_bill::config::Config;
use gst_bill::invoice::{
    full_invoice_no, guess_draft, guess_invoice_no, reguess_no_if_automatic, Numbering, NumberingInput,
};
use gst_bill::logic::Ymd;

#[test]
fn draft_guesses_dates_and_number_from_today() {
    let mut cfg = Config::default();
    cfg.default_rate = "1500".to_string();
    cfg.default_item = "Design".to_string();
    cfg.default_hsn = "998312".to_string();
    let draft = guess_draft(Ok(Ymd { year: 2026, month: 3, day: 31 }), &cfg).0;
    assert_eq!(draft.date, "2026-02-28");
    assert_eq!(draft.due, "2026-03-31");
    assert_eq!(draft.no, "11");
    assert_eq!(draft.reference, "");
    assert_eq!(draft.hours, "");
    assert_eq!(draft.rate, "1500");
    assert_eq!(draft.item, "Design");
    assert_eq!(draft.hsn, "998312");

    let draft = guess_draft(Ok(Ymd { year: 2026, month: 1, day: 15 }), &cfg).0;
    assert_eq!(draft.date, "2025-12-15");
    assert_eq!(draft.due, "2026-01-31");
    assert_eq!(draft.no, "9");

    let draft = guess_draft(Ok(Ymd { year: 2024, month: 5, day: 10 }), &cfg).0;
    assert_eq!(draft.date, "2024-04-10");
    assert_eq!(draft.no, "1");

    let (_, warning) = guess_draft(Ok(Ymd { year: 2024, month: 5, day: 10 }), &cfg);
    assert_eq!(warning, None);
}

#[test]
fn draft_without_a_clock_leaves_dates_empty() {
    let cfg = Config::default();
    let (draft, warning) = guess_draft(Err("clock unavailable".to_string()), &cfg);
    assert_eq!(
        warning.as_deref(),
        Some("Could not read the clock to guess dates: clock unavailable")
    );
    assert_eq!(draft.date, "");
    assert_eq!(draft.due, "");
    assert_eq!(draft.no, "");
    assert_eq!(draft.rate, "0");
    assert_eq!(draft.item, "Software Consulting");
    assert_eq!(draft.hsn, "998314");
}

#[test]
fn invoice_number_guess() {
    assert_eq!(guess_invoice_no("2026-04-01").as_deref(), Some("1"));
    assert_eq!(guess_invoice_no("2026-03-31").as_deref(), Some("12"));
    assert_eq!(guess_invoice_no("2026-02-30"), None);
    assert_eq!(guess_invoice_no(""), None);
    assert_eq!(reguess_no_if_automatic(false, "2026-08-10").as_deref(), Some("5"));
    assert_eq!(reguess_no_if_automatic(true, "2026-08-10"), None);
    assert_eq!(reguess_no_if_automatic(false, "bad"), None);
}

#[test]
fn full_invoice_number() {
    assert_eq!(full_invoice_no("FPCO", "2026-05-10", "5"), "FPCO-2026-5");
    assert_eq!(full_invoice_no(" FPCO ", "2026-01-10", "10"), "FPCO-2025-10");
    assert_eq!(full_invoice_no("  ", "2026-01-10", ""), "2025");
    assert_eq!(full_invoice_no("P", "bad", ""), "P");
    assert_eq!(full_invoice_no("P", "bad", "7"), "P-7");
    assert_eq!(full_invoice_no("", "", ""), "");
    assert_eq!(full_invoice_no("", "0000-02-01", " 3"), "-1- 3");
}

#[test]
fn draft_from_any_date_never_fails() {
    let cfg = Config::default();
    let draft = guess_draft(Ok(Ymd { year: 2026, month: 0, day: 1 }), &cfg).0;
    assert_eq!(draft.date, format!("2026-{}-00", u32::MAX));
    assert_eq!(draft.no, "");
    let draft = guess_draft(Ok(Ymd { year: i32::MIN, month: 1, day: 5 }), &cfg).0;
    assert_eq!(draft.date, format!("{}-12-05", i32::MAX));
    assert_eq!(draft.no, "9");
}

#[test]
fn typed_number_survives_date_edits() {
    let mut n = Numbering { date: "2026-05-10".to_string(), no: "2".to_string(), no_manual: false };
    n.handle(NumberingInput::DateEdited("2026-08-01".to_string()));
    assert_eq!((n.date.as_str(), n.no.as_str(), n.no_manual), ("2026-08-01", "5", false));
    n.handle(NumberingInput::DateEdited("garbage".to_string()));
    assert_eq!((n.date.as_str(), n.no.as_str(), n.no_manual), ("garbage", "5", false));
    n.handle(NumberingInput::NumberTyped("42".to_string()));
    assert_eq!((n.no.as_str(), n.no_manual), ("42", true));
    n.handle(NumberingInput::DateEdited("2026-01-15".to_string()));
    n.handle(NumberingInput::DateEdited("2026-04-15".to_string()));
    assert_eq!((n.date.as_str(), n.no.as_str(), n.no_manual), ("2026-04-15", "42", true));
    n.handle(NumberingInput::AutoRequested);
    assert_eq!((n.date.as_str(), n.no.as_str(), n.no_manual), ("2026-04-15", "1", false));
    n.handle(NumberingInput::NumberTyped("7".to_string()));
    n.handle(NumberingInput::DateEdited("bad".to_string()));
    n.handle(NumberingInput::AutoRequested);
    assert_eq!((n.date.as_str(), n.no.as_str(), n.no_manual), ("bad", "7", false));
}
