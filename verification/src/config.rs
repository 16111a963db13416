//! User-configurable profile/settings. The defaults are dummy placeholders:
//! nothing about any real owner is baked in. Storing and reading the
//! settings (JSON in the browser's localStorage) is the caller's part; this
//! module decides what the application runs with.

use vstd::prelude::*;

verus! {

/// Everything the user can configure.
#[derive(Clone, Debug, PartialEq)]
pub struct Config {
    // ---- Seller ("From"): the entity issuing the invoice ----
    pub seller_name: String,
    pub seller_address_1: String,
    pub seller_address_2: String,
    pub seller_pincode: String,
    pub seller_phone: String,
    pub seller_gstin: String,
    pub seller_state: String,
    pub seller_pan: String,
    // ---- Buyer ("To") ----
    pub buyer_name: String,
    pub buyer_address_1: String,
    pub buyer_address_2: String,
    pub buyer_website: String,
    pub place_of_supply: String,
    pub country_of_supply: String,
    // ---- Invoice defaults ----
    pub invoice_prefix: String,
    pub default_item: String,
    pub default_hsn: String,
    pub default_rate: String,
    pub declaration_text: String,
}

/// The text of the default declaration printed at the bottom of an invoice.
pub open spec fn default_declaration() -> Seq<char> {
    "SUPPLY MEANT FOR EXPORT UNDER BOND OR LETTER OF UNDERTAKING WITHOUT PAYMENT OF INTEGRATED TAX"@
}

/// Whether every field of `c` holds its placeholder default.
pub open spec fn is_placeholder(c: Config) -> bool {
    &&& c.seller_name@ == "Your Name"@
    &&& c.seller_address_1@ == "Address line 1"@
    &&& c.seller_address_2@ == "Address line 2"@
    &&& c.seller_pincode@ == "000000"@
    &&& c.seller_phone@ == "+91 00000 00000"@
    &&& c.seller_gstin@ == "99XXXXX0000X1Z5"@
    &&& c.seller_state@ == "99-Dummy State"@
    &&& c.seller_pan@ == "XXXXX0000X"@
    &&& c.buyer_name@ == "Your Client Pvt. Ltd."@
    &&& c.buyer_address_1@ == "Client address"@
    &&& c.buyer_address_2@ == "Client city, country"@
    &&& c.buyer_website@ == "www.example.com"@
    &&& c.place_of_supply@ == "97-Other territory"@
    &&& c.country_of_supply@ == "Other Country"@
    &&& c.invoice_prefix@ == "INV"@
    &&& c.default_item@ == "Software Consulting"@
    &&& c.default_hsn@ == "998314"@
    &&& c.default_rate@ == "0"@
    &&& c.declaration_text@ == default_declaration()
}

impl Default for Config {
    /// Dummy placeholder defaults.
    fn default() -> (c: Self)
        ensures
            is_placeholder(c),
    {
        Config {
            seller_name: String::from_str("Your Name"),
            seller_address_1: String::from_str("Address line 1"),
            seller_address_2: String::from_str("Address line 2"),
            seller_pincode: String::from_str("000000"),
            seller_phone: String::from_str("+91 00000 00000"),
            seller_gstin: String::from_str("99XXXXX0000X1Z5"),
            seller_state: String::from_str("99-Dummy State"),
            seller_pan: String::from_str("XXXXX0000X"),
            buyer_name: String::from_str("Your Client Pvt. Ltd."),
            buyer_address_1: String::from_str("Client address"),
            buyer_address_2: String::from_str("Client city, country"),
            buyer_website: String::from_str("www.example.com"),
            place_of_supply: String::from_str("97-Other territory"),
            country_of_supply: String::from_str("Other Country"),
            invoice_prefix: String::from_str("INV"),
            default_item: String::from_str("Software Consulting"),
            default_hsn: String::from_str("998314"),
            default_rate: String::from_str("0"),
            declaration_text: String::from_str(
                "SUPPLY MEANT FOR EXPORT UNDER BOND OR LETTER OF UNDERTAKING WITHOUT PAYMENT OF INTEGRATED TAX",
            ),
        }
    }
}

/// Opening words of the warning given when stored settings cannot be used.
pub open spec fn restore_warning_prefix() -> Seq<char> {
    "Could not restore settings, using placeholders: "@
}

impl Config {
    /// Best-effort restore. `stored` is what reading the saved settings gave:
    /// `Ok(Some(config))` when they were present and parseable, `Ok(None)`
    /// when nothing was saved yet, `Err(reason)` when reading or parsing
    /// failed. Returns the saved settings when there are any, else the
    /// placeholder defaults; never fails. On a failure it also returns the
    /// warning to log.
    pub fn load_or_default(stored: Result<Option<Config>, String>) -> (r: (Config, Option<String>))
        ensures
            match stored {
                Ok(Some(c)) => r.0 == c && r.1 is None,
                Ok(None) => is_placeholder(r.0) && r.1 is None,
                Err(e) => is_placeholder(r.0) && (r.1 matches Some(w) && w@
                    == restore_warning_prefix() + e@),
            },
    {
        match stored {
            Ok(Some(config)) => (config, None),
            Ok(None) => (Config::default(), None),
            Err(err) => {
                let mut warning = String::from_str("Could not restore settings, using placeholders: ");
                warning.append(err.as_str());
                (Config::default(), Some(warning))
            },
        }
    }
}

} // verus!
