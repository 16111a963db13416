use gst_bill::export::{download_href, filename, filename_from_lowercase, wrap_standalone};
use gst_bill::logic::percent_encode;

const BOOTSTRAP_LINK: &str = r#"<link rel="stylesheet"
      href="https://stackpath.bootstrapcdn.com/bootstrap/4.4.1/css/bootstrap.min.css"
      integrity="sha384-Vkoo8x4CGsO3+Hhxv8T/Q5PaXtkKtu6ug5TOeNV6gBiFeWPGFN9MuhOf23Q9Ifjh"
      crossorigin="anonymous" />"#;

fn standalone_with_std(sheet_html: &str) -> String {
    format!(
        "<!DOCTYPE html>\n<html lang=\"en\">\n  <head>\n    <meta charset=\"UTF-8\" />\n    \
         <title>GST Bill</title>\n    {BOOTSTRAP_LINK}\n  </head>\n  <body>\n    \
         <div class=\"container\">\n{sheet_html}\n    </div>\n  </body>\n</html>\n"
    )
}

#[test]
fn standalone_document_wraps_the_sheet() {
    for sheet in ["", "<div class=\"card\">Invoice ₹ 10</div>", "line1\nline2"] {
        assert_eq!(wrap_standalone(sheet), standalone_with_std(sheet));
    }
    let doc = wrap_standalone("<b>x</b>");
    assert!(doc.starts_with("<!DOCTYPE html>\n"));
    assert!(doc.contains("\n<b>x</b>\n"));
    assert!(doc.ends_with("</html>\n"));
}

#[test]
fn download_href_is_an_encoded_data_url() {
    let sheet = "<div class=\"card\">A &amp; B</div>";
    let href = download_href(sheet);
    assert_eq!(
        href,
        format!("data:text/html;charset=utf-8,{}", percent_encode(&standalone_with_std(sheet)))
    );
    assert!(href.starts_with("data:text/html;charset=utf-8,%3C%21DOCTYPE%20html%3E%0A"));
}

/// `filename` as the standard library would do it.
fn filename_with_std(seller_name: &str, prefix: &str, invoice_no: &str, invoice_date: &str) -> String {
    let slug: String = seller_name
        .split_whitespace()
        .next()
        .unwrap_or("invoice")
        .to_lowercase()
        .chars()
        .filter(|ch| ch.is_ascii_alphanumeric())
        .collect();
    let slug = if slug.is_empty() { "invoice" } else { slug.as_str() };
    let prefix = prefix.trim().to_lowercase();
    let number = invoice_no.trim();
    let month = gst_bill::logic::Ymd::parse(invoice_date)
        .and_then(|date| gst_bill::logic::month_name(date.month));
    match month {
        Some(month) => format!("{slug}-{prefix}-{number}-{month}.html"),
        None => format!("{slug}-{prefix}-{number}.html"),
    }
}

#[test]
fn file_names() {
    assert_eq!(filename("Ram Kumar", "INV", "7", "2026-03-05"), "ram-inv-7-March.html");
    assert_eq!(filename("  Acme, Inc.", " FPCO ", " 12 ", "2026-11-30"), "acme-fpco-12-November.html");
    assert_eq!(filename("", "INV", "1", "not a date"), "invoice-inv-1.html");
    assert_eq!(filename("!!! Corp", "", "", ""), "invoice--.html");
    assert_eq!(filename("\u{212A}ELVIN", "Ä", "3", "2024-02-29"), "kelvin-ä-3-February.html");
    for (seller, prefix, no, date) in [
        ("Ram Kumar", "INV", "7", "2026-03-05"),
        ("\u{130}stanbul Ltd", "ΣΑΣ", "9", "2026-01-31"),
        ("\u{3000}Ünal\u{a0}Bros", " GST ", " 4 ", " 2025-12-01 "),
        ("o'Neil", "inv", "2", "2025-02-29"),
    ] {
        assert_eq!(filename(seller, prefix, no, date), filename_with_std(seller, prefix, no, date));
    }
}

#[test]
fn file_name_from_lowercased_parts() {
    assert_eq!(filename_from_lowercase("ram", "inv", " 7 ", "2026-03-05"), "ram-inv-7-March.html");
    assert_eq!(filename_from_lowercase("o'neil!", "gst", "2", "bad"), "oneil-gst-2.html");
    assert_eq!(filename_from_lowercase("ünal", "", "", ""), "nal--.html");
    assert_eq!(filename_from_lowercase("---", "p", "1", "2024-02-29"), "invoice-p-1-February.html");
    assert_eq!(filename_from_lowercase("", " x ", "1", ""), "invoice- x -1.html");
}
