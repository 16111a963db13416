//! Standalone-HTML export: the document that wraps a captured invoice
//! preview, the `data:` URL that carries it, and the suggested file name.
//! Reading the preview from the page and triggering the download are the
//! caller's part.

use vstd::prelude::*;

use crate::logic::{month_name, month_name_text, percent_encode, encode_bytes, Ymd};
use crate::text::{
    chars_of, is_white_space, is_whitespace_char, push_chars, string_of, sub_chars, to_lowercase,
    trim, trim_bounds, trim_chars, trim_start, unicode_lowercase,
};

verus! {

/// Everything of the standalone document that comes before the invoice
/// markup: doctype, head with the Bootstrap 4.4.1 stylesheet link, and the
/// opening of the container.
pub open spec fn standalone_head() -> Seq<char> {
    "<!DOCTYPE html>\n<html lang=\"en\">\n  <head>\n    <meta charset=\"UTF-8\" />\n    <title>GST Bill</title>\n    <link rel=\"stylesheet\"\n      href=\"https://stackpath.bootstrapcdn.com/bootstrap/4.4.1/css/bootstrap.min.css\"\n      integrity=\"sha384-Vkoo8x4CGsO3+Hhxv8T/Q5PaXtkKtu6ug5TOeNV6gBiFeWPGFN9MuhOf23Q9Ifjh\"\n      crossorigin=\"anonymous\" />\n  </head>\n  <body>\n    <div class=\"container\">\n"@
}

/// Everything of the standalone document that comes after the invoice markup.
pub open spec fn standalone_tail() -> Seq<char> {
    "\n    </div>\n  </body>\n</html>\n"@
}

/// Wrap captured invoice markup (a bootstrap `.card`) into a full standalone
/// HTML document, mirroring the layout of the old CLI output.
pub fn wrap_standalone(sheet_html: &str) -> (doc: String)
    ensures
        doc@ == standalone_head() + sheet_html@ + standalone_tail(),
{
    let mut doc = String::from_str("<!DOCTYPE html>\n<html lang=\"en\">\n  <head>\n    <meta charset=\"UTF-8\" />\n    <title>GST Bill</title>\n    <link rel=\"stylesheet\"\n      href=\"https://stackpath.bootstrapcdn.com/bootstrap/4.4.1/css/bootstrap.min.css\"\n      integrity=\"sha384-Vkoo8x4CGsO3+Hhxv8T/Q5PaXtkKtu6ug5TOeNV6gBiFeWPGFN9MuhOf23Q9Ifjh\"\n      crossorigin=\"anonymous\" />\n  </head>\n  <body>\n    <div class=\"container\">\n");
    doc.append(sheet_html);
    doc.append("\n    </div>\n  </body>\n</html>\n");
    doc
}

/// Scheme and media type in front of the encoded document.
pub open spec fn data_url_prefix() -> Seq<char> {
    "data:text/html;charset=utf-8,"@
}

/// The `data:` URL that downloads the standalone document of `sheet_html`:
/// the document's UTF-8 bytes, percent-encoded, after the HTML media type.
pub fn download_href(sheet_html: &str) -> (href: String)
    ensures
        href@ == data_url_prefix() + encode_bytes(
            vstd::utf8::encode_utf8(standalone_head() + sheet_html@ + standalone_tail()),
        ),
{
    let doc = wrap_standalone(sheet_html);
    let encoded = percent_encode(doc.as_str());
    let mut href = String::from_str("data:text/html;charset=utf-8,");
    href.append(encoded.as_str());
    href
}

/// The characters of `t` up to its first white space.
pub open spec fn leading_word(t: Seq<char>) -> Seq<char>
    decreases t.len(),
{
    if t.len() == 0 || is_white_space(t[0]) {
        Seq::empty()
    } else {
        seq![t[0]] + leading_word(t.drop_first())
    }
}

/// `str::split_whitespace().next()`: the first run of non-white-space
/// characters, if there is one.
pub open spec fn first_word(s: Seq<char>) -> Option<Seq<char>> {
    let t = trim_start(s);
    if t.len() == 0 {
        None
    } else {
        Some(leading_word(t))
    }
}

/// Whether `c` is an ASCII letter or digit.
pub open spec fn is_ascii_alnum(c: char) -> bool {
    ('0' <= c && c <= '9') || ('A' <= c && c <= 'Z') || ('a' <= c && c <= 'z')
}

/// The ASCII letters and digits of `s`, in order.
pub open spec fn keep_ascii_alnum(s: Seq<char>) -> Seq<char>
    decreases s.len(),
{
    if s.len() == 0 {
        Seq::empty()
    } else {
        let kept = keep_ascii_alnum(s.drop_last());
        if is_ascii_alnum(s.last()) {
            kept.push(s.last())
        } else {
            kept
        }
    }
}

/// The seller part of a file name, from the seller's lowercased first
/// word: its ASCII letters and digits; `invoice` when there are none.
pub open spec fn slug_of_lowercase(lower_word: Seq<char>) -> Seq<char> {
    let kept = keep_ascii_alnum(lower_word);
    if kept.len() == 0 {
        "invoice"@
    } else {
        kept
    }
}

/// The seller's first word, or `invoice` when there is none.
pub open spec fn seller_word(seller_name: Seq<char>) -> Seq<char> {
    match first_word(seller_name) {
        Some(w) => w,
        None => "invoice"@,
    }
}

/// The seller part of a file name: the seller's first word, lowercased,
/// reduced to ASCII letters and digits; `invoice` when nothing is left.
pub open spec fn seller_slug(seller_name: Seq<char>) -> Seq<char> {
    slug_of_lowercase(unicode_lowercase(seller_word(seller_name)))
}

/// The download name assembled from the lowercased seller word and the
/// lowercased trimmed prefix: `<slug>-<prefix>-<number>[-<Month>].html`, the
/// number trimmed, the month named when the invoice date parses.
pub open spec fn name_from_lowercase(
    lower_word: Seq<char>,
    lower_prefix: Seq<char>,
    invoice_no: Seq<char>,
    invoice_date: Seq<char>,
) -> Seq<char> {
    let base = slug_of_lowercase(lower_word) + seq!['-'] + lower_prefix + seq!['-'] + trim(
        invoice_no,
    );
    match Ymd::parsed(invoice_date) {
        Some(d) => base + seq!['-'] + month_name_text(d.month as int) + ".html"@,
        None => base + ".html"@,
    }
}

/// The suggested download name:
/// `<seller-slug>-<prefix>-<number>[-<Month>].html`, the prefix trimmed and
/// lowercased, the number trimmed, the month named when the invoice date
/// parses.
pub open spec fn download_name(
    seller_name: Seq<char>,
    prefix: Seq<char>,
    invoice_no: Seq<char>,
    invoice_date: Seq<char>,
) -> Seq<char> {
    name_from_lowercase(
        unicode_lowercase(seller_word(seller_name)),
        unicode_lowercase(trim(prefix)),
        invoice_no,
        invoice_date,
    )
}

/// The leading word of `t` is its part before the first white space at `k`.
proof fn lemma_leading_word(t: Seq<char>, k: int)
    requires
        0 <= k <= t.len(),
        forall|i: int| 0 <= i < k ==> !is_white_space(#[trigger] t[i]),
        k == t.len() || is_white_space(t[k]),
    ensures
        leading_word(t) == t.take(k),
    decreases t.len(),
{
    if k == 0 {
        assert(t.take(0) =~= Seq::<char>::empty());
    } else {
        let r = t.drop_first();
        assert forall|i: int| 0 <= i < k - 1 implies !is_white_space(#[trigger] r[i]) by {
            assert(r[i] == t[i + 1]);
        }
        if k < t.len() {
            assert(r[k - 1] == t[k]);
        }
        lemma_leading_word(r, k - 1);
        assert(seq![t[0]] + r.take(k - 1) =~= t.take(k));
    }
}

/// The first word of `s`, as characters, when there is one.
fn first_word_chars(s: &Vec<char>) -> (w: Option<Vec<char>>)
    ensures
        match w {
            Some(v) => first_word(s@) == Some(v@),
            None => first_word(s@) is None,
        },
{
    let (a, _b) = trim_bounds(s);
    let n: usize = s.len();
    if a == n {
        return None;
    }
    let mut b: usize = a;
    while b < n && !is_whitespace_char(s[b])
        invariant
            a <= b <= n == s.len(),
            forall|i: int| a <= i < b ==> !is_white_space(#[trigger] s@[i]),
        decreases n - b,
    {
        b += 1;
    }
    let ghost t = s@.subrange(a as int, n as int);
    proof {
        assert forall|i: int| 0 <= i < b - a implies !is_white_space(#[trigger] t[i]) by {
            assert(t[i] == s@[a + i]);
        }
        if b < n {
            assert(t[b - a] == s@[b as int]);
        }
        lemma_leading_word(t, b - a);
        assert(t.take(b - a) =~= s@.subrange(a as int, b as int));
    }
    Some(sub_chars(s, a, b))
}

/// The ASCII letters and digits of `s`.
fn ascii_alnum_chars(s: &Vec<char>) -> (v: Vec<char>)
    ensures
        v@ == keep_ascii_alnum(s@),
{
    let mut v: Vec<char> = Vec::new();
    assert(s@.take(0) =~= Seq::<char>::empty());
    for i in 0..s.len()
        invariant
            v@ == keep_ascii_alnum(s@.take(i as int)),
    {
        let c = s[i];
        assert(s@.take(i + 1).drop_last() =~= s@.take(i as int));
        assert(s@.take(i + 1).last() == c);
        if ('0' <= c && c <= '9') || ('A' <= c && c <= 'Z') || ('a' <= c && c <= 'z') {
            v.push(c);
        }
    }
    assert(s@.take(s.len() as int) =~= s@);
    v
}

/// The download name from the seller's first word and the trimmed prefix,
/// both already lowercased (see `name_from_lowercase`).
pub fn filename_from_lowercase(
    lower_word: &str,
    lower_prefix: &str,
    invoice_no: &str,
    invoice_date: &str,
) -> (name: String)
    ensures
        name@ == name_from_lowercase(lower_word@, lower_prefix@, invoice_no@, invoice_date@),
{
    let kept = ascii_alnum_chars(&chars_of(lower_word));
    let slug = if kept.len() == 0 {
        chars_of("invoice")
    } else {
        kept
    };
    let number = trim_chars(&chars_of(invoice_no));
    let mut name = string_of(&slug);
    name.append("-");
    name.append(lower_prefix);
    name.append("-");
    push_chars(&mut name, &number);
    let month = match Ymd::parse(invoice_date) {
        Some(date) => month_name(date.month),
        None => None,
    };
    match month {
        Some(month) => {
            name.append("-");
            name.append(month);
            name.append(".html");
        },
        None => {
            name.append(".html");
        },
    }
    proof {
        reveal_strlit("-");
    }
    name
}

/// Suggested download name following the old convention:
/// `<seller-slug>-<prefix>-<number>-<Month>.html`
/// (the financial year is intentionally not part of the file name).
pub fn filename(seller_name: &str, prefix: &str, invoice_no: &str, invoice_date: &str) -> (name:
    String)
    ensures
        name@ == download_name(seller_name@, prefix@, invoice_no@, invoice_date@),
{
    let word = match first_word_chars(&chars_of(seller_name)) {
        Some(w) => w,
        None => chars_of("invoice"),
    };
    let lower_word = to_lowercase(string_of(&word).as_str());
    let lower_prefix = to_lowercase(string_of(&trim_chars(&chars_of(prefix))).as_str());
    filename_from_lowercase(lower_word.as_str(), lower_prefix.as_str(), invoice_no, invoice_date)
}

} // verus!
