//! The decisions behind the invoice form: the draft of a new invoice, the
//! guessed invoice number and its display form.

use vstd::prelude::*;

use crate::config::Config;
use crate::logic::{
    days_in_month, finance_index, finance_month_index, finance_year,
    finance_year_of, lemma_parse_fmt_roundtrip, month_before, month_length, previous_month_clamped,
    Ymd,
};
use crate::text::{fmt_int, int_to_string, push_chars, trim, trim_chars, chars_of};

verus! {

/// What a brand-new invoice looks like before the user edits it.
#[derive(Clone, Debug)]
pub struct Draft {
    pub date: String,
    pub due: String,
    pub no: String,
    pub reference: String,
    pub hours: String,
    pub rate: String,
    pub item: String,
    pub hsn: String,
}

/// The last day of the month of `today`.
pub open spec fn month_end(today: Ymd) -> Ymd {
    Ymd {
        year: today.year,
        month: today.month,
        day: month_length(today.year as int, today.month as int) as u32,
    }
}

/// The due date is the last day of today's month: the same year and month,
/// a real date, and the day after it is not in that month.
pub proof fn lemma_month_end_is_last_day(today: Ymd)
    requires
        1 <= today.month <= 12,
    ensures
        month_end(today).year == today.year,
        month_end(today).month == today.month,
        month_end(today).is_valid(),
        Ymd::checked(today.year, today.month, (month_end(today).day + 1) as u32) is None,
{
}

/// The number guessed for an invoice of month `month`: its index in the
/// financial year, in decimal; empty for an invalid month.
pub open spec fn guessed_no_text(month: int) -> Seq<char> {
    if 1 <= month <= 12 {
        fmt_int(finance_index(month))
    } else {
        Seq::empty()
    }
}

/// Opening words of the warning given when the clock cannot be read.
pub open spec fn clock_warning_prefix() -> Seq<char> {
    "Could not read the clock to guess dates: "@
}

/// Guess the defaults for a fresh invoice. `today` is what reading the clock
/// gave: the current date, or `Err(reason)` when it could not be read. With
/// a date:
///   * invoice date = same day last month (clamped to month end)
///   * due date     = last day of the current month
///   * invoice no   = month index of the invoice date in the financial year
/// Without one, these three stay empty and the warning to log is returned
/// too. Item, HSN and rate come from the configured defaults; reference and
/// hours start empty. Never fails.
pub fn guess_draft(today: Result<Ymd, String>, cfg: &Config) -> (r: (Draft, Option<String>))
    ensures
        r.0.rate@ == cfg.default_rate@,
        r.0.item@ == cfg.default_item@,
        r.0.hsn@ == cfg.default_hsn@,
        r.0.reference@ == Seq::<char>::empty(),
        r.0.hours@ == Seq::<char>::empty(),
        match today {
            Ok(t) => {
                &&& r.0.date@ == month_before(t).text()
                &&& r.0.due@ == month_end(t).text()
                &&& r.0.no@ == guessed_no_text(month_before(t).month as int)
                &&& r.1 is None
            },
            Err(e) => {
                &&& r.0.date@ == Seq::<char>::empty()
                &&& r.0.due@ == Seq::<char>::empty()
                &&& r.0.no@ == Seq::<char>::empty()
                &&& r.1 matches Some(w) && w@ == clock_warning_prefix() + e@
            },
        },
{
    match today {
        Ok(today) => {
            let date = previous_month_clamped(today);
            let due = Ymd {
                year: today.year,
                month: today.month,
                day: days_in_month(today.year, today.month),
            };
            let no = match finance_month_index(date.month) {
                Some(index) => int_to_string(index as i64),
                None => String::new(),
            };
            let draft = Draft {
                date: date.fmt(),
                due: due.fmt(),
                no,
                reference: String::new(),
                hours: String::new(),
                rate: cfg.default_rate.clone(),
                item: cfg.default_item.clone(),
                hsn: cfg.default_hsn.clone(),
            };
            (draft, None)
        },
        Err(err) => {
            let draft = Draft {
                date: String::new(),
                due: String::new(),
                no: String::new(),
                reference: String::new(),
                hours: String::new(),
                rate: cfg.default_rate.clone(),
                item: cfg.default_item.clone(),
                hsn: cfg.default_hsn.clone(),
            };
            let mut warning = String::from_str("Could not read the clock to guess dates: ");
            warning.append(err.as_str());
            (draft, Some(warning))
        },
    }
}

/// The invoice number guessed from an invoice date: the month's index in
/// the financial year, when the date parses.
pub open spec fn guessed_no(date: Seq<char>) -> Option<Seq<char>> {
    match Ymd::parsed(date) {
        Some(d) => Some(fmt_int(finance_index(d.month as int))),
        None => None,
    }
}

/// The invoice number guessed from the invoice date (see `guessed_no`).
pub fn guess_invoice_no(date: &str) -> (r: Option<String>)
    ensures
        match r {
            Some(s) => guessed_no(date@) == Some(s@),
            None => guessed_no(date@) is None,
        },
{
    match Ymd::parse(date) {
        Some(d) => match finance_month_index(d.month) {
            Some(index) => Some(int_to_string(index as i64)),
            None => None,
        },
        None => None,
    }
}

/// A new draft is consistent with itself: its invoice date and due date are
/// real dates, and its number is the one that re-guessing from its own
/// invoice date gives, so pressing "auto" right after starting a new invoice
/// changes nothing. (From year 0 on; a negative year does not read back from
/// its text.)
pub proof fn lemma_draft_number_is_guess(today: Ymd)
    requires
        today.is_valid(),
        month_before(today).year >= 0,
    ensures
        month_before(today).is_valid(),
        month_end(today).is_valid(),
        guessed_no(month_before(today).text()) == Some(
            guessed_no_text(month_before(today).month as int),
        ),
{
    let d = month_before(today);
    assert(d.is_valid());
    lemma_parse_fmt_roundtrip(d);
}

/// Re-guess the invoice number from the current invoice date, but only
/// while the user has not typed a number by hand. Returns the number to
/// show instead of the current one, or `None` to leave it as it is.
pub fn reguess_no_if_automatic(no_manual: bool, date: &str) -> (r: Option<String>)
    ensures
        no_manual ==> r is None,
        !no_manual ==> match r {
            Some(s) => guessed_no(date@) == Some(s@),
            None => guessed_no(date@) is None,
        },
{
    if no_manual {
        return None;
    }
    guess_invoice_no(date)
}

// ---------------------------------------------------------------------------
// The invoice-number field and its inputs
// ---------------------------------------------------------------------------

/// The invoice date and number as the form holds them, and whether the user
/// typed the number by hand (which stops the number from being guessed).
pub struct NumberingModel {
    pub date: Seq<char>,
    pub no: Seq<char>,
    pub no_manual: bool,
}

/// What the user can do to the invoice-number field.
pub enum NumberingInputModel {
    /// A new text in the invoice-date input.
    DateEdited(Seq<char>),
    /// A new text typed in the invoice-number input.
    NumberTyped(Seq<char>),
    /// A click on "auto".
    AutoRequested,
}

/// The number after a re-guess from `date`: the guess when there is one,
/// else the number as it was.
pub open spec fn reguessed_or(date: Seq<char>, no: Seq<char>) -> Seq<char> {
    match guessed_no(date) {
        Some(g) => g,
        None => no,
    }
}

/// The form after one input: editing the date re-guesses the number only
/// while it is automatic; typing a number makes it manual; "auto" makes it
/// automatic again and re-guesses.
pub open spec fn numbering_next(m: NumberingModel, input: NumberingInputModel) -> NumberingModel {
    match input {
        NumberingInputModel::DateEdited(d) => NumberingModel {
            date: d,
            no: if m.no_manual {
                m.no
            } else {
                reguessed_or(d, m.no)
            },
            no_manual: m.no_manual,
        },
        NumberingInputModel::NumberTyped(v) => NumberingModel {
            date: m.date,
            no: v,
            no_manual: true,
        },
        NumberingInputModel::AutoRequested => NumberingModel {
            date: m.date,
            no: reguessed_or(m.date, m.no),
            no_manual: false,
        },
    }
}

/// The form after a sequence of inputs, in order.
pub open spec fn numbering_after(m: NumberingModel, inputs: Seq<NumberingInputModel>) -> NumberingModel
    decreases inputs.len(),
{
    if inputs.len() == 0 {
        m
    } else {
        numbering_after(numbering_next(m, inputs[0]), inputs.drop_first())
    }
}

/// The invoice date and number of the form, and whether the number was typed
/// by hand.
pub struct Numbering {
    pub date: String,
    pub no: String,
    pub no_manual: bool,
}

impl View for Numbering {
    type V = NumberingModel;

    open spec fn view(&self) -> NumberingModel {
        NumberingModel { date: self.date@, no: self.no@, no_manual: self.no_manual }
    }
}

/// An input to the invoice-number field (see `NumberingInputModel`).
pub enum NumberingInput {
    DateEdited(String),
    NumberTyped(String),
    AutoRequested,
}

impl View for NumberingInput {
    type V = NumberingInputModel;

    open spec fn view(&self) -> NumberingInputModel {
        match self {
            NumberingInput::DateEdited(d) => NumberingInputModel::DateEdited(d@),
            NumberingInput::NumberTyped(v) => NumberingInputModel::NumberTyped(v@),
            NumberingInput::AutoRequested => NumberingInputModel::AutoRequested,
        }
    }
}

impl Numbering {
    /// Take one input: a date edit re-guesses the number while it is
    /// automatic, typing a number makes it manual, "auto" makes it automatic
    /// and re-guesses.
    pub fn handle(&mut self, input: NumberingInput)
        ensures
            final(self)@ == numbering_next(old(self)@, input@),
    {
        match input {
            NumberingInput::DateEdited(date) => {
                self.date = date;
                if let Some(no) = reguess_no_if_automatic(self.no_manual, self.date.as_str()) {
                    self.no = no;
                }
            },
            NumberingInput::NumberTyped(no) => {
                self.no = no;
                self.no_manual = true;
            },
            NumberingInput::AutoRequested => {
                self.no_manual = false;
                if let Some(no) = reguess_no_if_automatic(self.no_manual, self.date.as_str()) {
                    self.no = no;
                }
            },
        }
    }
}

/// A number typed by hand is never overwritten by guessing: however the
/// invoice date is edited afterwards, the number and its manual mark stay,
/// and the date is the last one entered.
pub proof fn lemma_typed_number_kept(m: NumberingModel, inputs: Seq<NumberingInputModel>)
    requires
        m.no_manual,
        forall|i: int| 0 <= i < inputs.len() ==> #[trigger] inputs[i] is DateEdited,
    ensures
        numbering_after(m, inputs).no == m.no,
        numbering_after(m, inputs).no_manual,
        inputs.len() > 0 ==> numbering_after(m, inputs).date == inputs.last()->DateEdited_0,
        inputs.len() == 0 ==> numbering_after(m, inputs).date == m.date,
    decreases inputs.len(),
{
    if inputs.len() > 0 {
        let rest = inputs.drop_first();
        assert(inputs[0] is DateEdited);
        assert forall|i: int| 0 <= i < rest.len() implies #[trigger] rest[i] is DateEdited by {
            assert(rest[i] == inputs[i + 1]);
        }
        lemma_typed_number_kept(numbering_next(m, inputs[0]), rest);
        if rest.len() > 0 {
            assert(rest.last() == inputs.last());
        }
    }
}

/// Typing a number and then editing the date keeps the typed number; a
/// later "auto" clears the manual mark and shows the number guessed from
/// that date, when it parses.
pub proof fn lemma_typed_then_auto(m: NumberingModel, typed: Seq<char>, date: Seq<char>)
    ensures
        ({
            let after_date = numbering_after(
                m,
                seq![NumberingInputModel::NumberTyped(typed), NumberingInputModel::DateEdited(date)],
            );
            let after_auto = numbering_next(after_date, NumberingInputModel::AutoRequested);
            &&& after_date.date == date
            &&& after_date.no == typed
            &&& after_date.no_manual
            &&& !after_auto.no_manual
            &&& after_auto.date == date
            &&& guessed_no(date) matches Some(g) ==> after_auto.no == g
            &&& guessed_no(date) is None ==> after_auto.no == typed
        }),
{
    let inputs = seq![NumberingInputModel::NumberTyped(typed), NumberingInputModel::DateEdited(date)];
    assert(inputs.drop_first() =~= seq![NumberingInputModel::DateEdited(date)]);
    assert(inputs.drop_first().drop_first() =~= Seq::<NumberingInputModel>::empty());
    let m1 = numbering_next(m, inputs[0]);
    let m2 = numbering_next(m1, inputs.drop_first()[0]);
    assert(numbering_after(m2, inputs.drop_first().drop_first()) == m2);
    assert(numbering_after(m1, inputs.drop_first()) == m2);
    assert(numbering_after(m, inputs) == m2);
}

/// Pieces joined with `-` between them.
pub open spec fn join_dash(parts: Seq<Seq<char>>) -> Seq<char>
    decreases parts.len(),
{
    if parts.len() == 0 {
        Seq::empty()
    } else if parts.len() == 1 {
        parts[0]
    } else {
        join_dash(parts.drop_last()) + seq!['-'] + parts.last()
    }
}

/// The pieces of the displayed invoice number: the trimmed prefix when it
/// is not empty, the financial year when the date parses, the number when
/// it is not empty.
pub open spec fn invoice_no_parts(prefix: Seq<char>, date: Seq<char>, number: Seq<char>) -> Seq<
    Seq<char>,
> {
    let p = trim(prefix);
    (if p.len() > 0 {
        seq![p]
    } else {
        Seq::empty()
    }) + (match Ymd::parsed(date) {
        Some(d) => seq![fmt_int(finance_year_of(d.year as int, d.month as int))],
        None => Seq::empty(),
    }) + (if number.len() > 0 {
        seq![number]
    } else {
        Seq::empty()
    })
}

/// The displayed invoice number, piece by piece: the trimmed prefix, the
/// financial year of the invoice date (the calendar year for April to
/// December, the year before for January to March) and the number, each
/// left out when empty or when the date does not parse, with `-` between
/// the pieces that remain.
pub proof fn lemma_invoice_no_shape(prefix: Seq<char>, date: Seq<char>, number: Seq<char>)
    ensures
        ({
            let r = join_dash(invoice_no_parts(prefix, date, number));
            let p = trim(prefix);
            let dash = seq!['-'];
            match Ymd::parsed(date) {
                Some(d) => {
                    let fy = fmt_int(
                        if d.month <= 3 {
                            d.year - 1
                        } else {
                            d.year as int
                        },
                    );
                    &&& p.len() > 0 && number.len() > 0 ==> r == p + dash + fy + dash + number
                    &&& p.len() > 0 && number.len() == 0 ==> r == p + dash + fy
                    &&& p.len() == 0 && number.len() > 0 ==> r == fy + dash + number
                    &&& p.len() == 0 && number.len() == 0 ==> r == fy
                },
                None => {
                    &&& p.len() > 0 && number.len() > 0 ==> r == p + dash + number
                    &&& p.len() > 0 && number.len() == 0 ==> r == p
                    &&& p.len() == 0 && number.len() > 0 ==> r == number
                    &&& p.len() == 0 && number.len() == 0 ==> r == Seq::<char>::empty()
                },
            }
        }),
{
    let parts = invoice_no_parts(prefix, date, number);
    reveal_with_fuel(join_dash, 4);
    let p = trim(prefix);
    if parts.len() == 3 {
        assert(parts.drop_last().drop_last() =~= seq![parts[0]]);
    }
    if parts.len() >= 2 {
        assert(parts.drop_last().drop_last().len() + 2 == parts.len());
    }
    match Ymd::parsed(date) {
        Some(d) => {
            if p.len() > 0 && number.len() > 0 {
                assert(parts.drop_last() =~= seq![parts[0], parts[1]]);
                assert(parts.drop_last().drop_last() =~= seq![parts[0]]);
            } else if p.len() > 0 || number.len() > 0 {
                assert(parts.drop_last() =~= seq![parts[0]]);
            }
        },
        None => {
            if p.len() > 0 && number.len() > 0 {
                assert(parts.drop_last() =~= seq![parts[0]]);
            }
        },
    }
}

/// Appends `piece` to the pieces joined in `out` so far (`first` when
/// there are none yet).
fn push_piece(out: &mut String, first: bool, parts: Ghost<Seq<Seq<char>>>, piece: &Vec<char>)
    requires
        old(out)@ == join_dash(parts@),
        first == (parts@.len() == 0),
    ensures
        final(out)@ == join_dash(parts@.push(piece@)),
{
    let ghost all = parts@.push(piece@);
    assert(all.drop_last() =~= parts@);
    if first {
        push_chars(out, piece);
        assert(out@ =~= join_dash(all));
    } else {
        out.append("-");
        push_chars(out, piece);
        proof {
            reveal_strlit("-");
        }
        assert(out@ =~= join_dash(all));
    }
}

/// Display form of the invoice number: `{prefix}-{financial year}-{number}`,
/// e.g. `FPCO-2026-5`; empty pieces are left out together with their `-`.
/// The financial year always follows the invoice date.
pub fn full_invoice_no(prefix: &str, date: &str, number: &str) -> (r: String)
    ensures
        r@ == join_dash(invoice_no_parts(prefix@, date@, number@)),
{
    let mut out = String::new();
    let ghost mut parts: Seq<Seq<char>> = Seq::empty();
    let mut first = true;
    let p = trim_chars(&chars_of(prefix));
    if p.len() > 0 {
        push_piece(&mut out, first, Ghost(parts), &p);
        proof {
            parts = parts.push(p@);
        }
        first = false;
    }
    match Ymd::parse(date) {
        Some(d) => match finance_year(d.year, d.month) {
            Some(fy) => {
                let fy_chars = chars_of(int_to_string(fy as i64).as_str());
                push_piece(&mut out, first, Ghost(parts), &fy_chars);
                proof {
                    parts = parts.push(fy_chars@);
                }
                first = false;
            },
            None => {},
        },
        None => {},
    }
    let n = chars_of(number);
    if n.len() > 0 {
        push_piece(&mut out, first, Ghost(parts), &n);
        proof {
            parts = parts.push(n@);
        }
    }
    assert(parts =~= invoice_no_parts(prefix@, date@, number@));
    out
}

} // verus!
