use gst_bill::config::Config;

fn placeholders() -> Config {
    Config::default()
}

#[test]
fn default_config_holds_placeholders() {
    let c = placeholders();
    assert_eq!(c.seller_name, "Your Name");
    assert_eq!(c.seller_address_1, "Address line 1");
    assert_eq!(c.seller_address_2, "Address line 2");
    assert_eq!(c.seller_pincode, "000000");
    assert_eq!(c.seller_phone, "+91 00000 00000");
    assert_eq!(c.seller_gstin, "99XXXXX0000X1Z5");
    assert_eq!(c.seller_state, "99-Dummy State");
    assert_eq!(c.seller_pan, "XXXXX0000X");
    assert_eq!(c.buyer_name, "Your Client Pvt. Ltd.");
    assert_eq!(c.buyer_address_1, "Client address");
    assert_eq!(c.buyer_address_2, "Client city, country");
    assert_eq!(c.buyer_website, "www.example.com");
    assert_eq!(c.place_of_supply, "97-Other territory");
    assert_eq!(c.country_of_supply, "Other Country");
    assert_eq!(c.invoice_prefix, "INV");
    assert_eq!(c.default_item, "Software Consulting");
    assert_eq!(c.default_hsn, "998314");
    assert_eq!(c.default_rate, "0");
    assert_eq!(
        c.declaration_text,
        "SUPPLY MEANT FOR EXPORT UNDER BOND OR LETTER OF UNDERTAKING WITHOUT PAYMENT OF INTEGRATED TAX"
    );
}

#[test]
fn load_or_default_prefers_saved_settings() {
    let mut saved = placeholders();
    saved.seller_name = "Asha Rao".to_string();
    saved.invoice_prefix = "AR".to_string();
    let (config, warning) = Config::load_or_default(Ok(Some(saved.clone())));
    assert_eq!(config, saved);
    assert_eq!(warning, None);
}

#[test]
fn load_or_default_falls_back_to_placeholders() {
    let (config, warning) = Config::load_or_default(Ok(None));
    assert_eq!(config, placeholders());
    assert_eq!(warning, None);

    let (config, warning) = Config::load_or_default(Err("stored settings are not valid JSON".to_string()));
    assert_eq!(config, placeholders());
    assert_eq!(
        warning.as_deref(),
        Some("Could not restore settings, using placeholders: stored settings are not valid JSON")
    );
}
