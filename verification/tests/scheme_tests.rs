use yota::scheme::{change_offer_params, login_params, Config, Devices, Product, Step};

fn sample_product() -> Product {
    Product {
        product_id: "123321123".to_string(),
        steps: vec![
            Step { code: "POS-MA6-0005".to_string(), speed_number: "5.0".to_string() },
            Step { code: "POS-MA6-0007".to_string(), speed_number: "7.2".to_string() },
            Step { code: "POS-MA6-0008".to_string(), speed_number: "7.2".to_string() },
        ],
    }
}

#[test]
fn test_get_step_finds_first_match() {
    let product = sample_product();
    let step = product.get_step("7.2").unwrap();
    assert_eq!(step.code, "POS-MA6-0007");
    assert!(product.get_step("99").is_none());
}

#[test]
fn test_get_product() {
    let devices = Devices {
        mapped: vec![
            ("123312123".to_string(), sample_product()),
            ("312123321".to_string(), sample_product()),
        ],
    };
    let product = devices.get_product("312123321").unwrap();
    assert_eq!(product.product_id, "123321123");
    assert!(devices.get_product("missing").is_none());
}

#[test]
fn test_login_params_carry_credentials() {
    let config = Config {
        name: "user@example.org".to_string(),
        password: "opensesame".to_string(),
        iccid: "8970112342".to_string(),
    };
    let params = login_params(&config);
    assert_eq!(params.len(), 7);
    assert_eq!(params[0], ("IDToken1".to_string(), "user@example.org".to_string()));
    assert_eq!(params[1], ("IDToken2".to_string(), "opensesame".to_string()));
    assert_eq!(
        params[2],
        ("goto".to_string(), "https://my.yota.ru:443/selfcare/loginSuccess".to_string())
    );
    assert_eq!(
        params[3],
        ("gotoOnFail".to_string(), "https://my.yota.ru:443/selfcare/loginError".to_string())
    );
    assert_eq!(params[4], ("org".to_string(), "customer".to_string()));
    assert_eq!(params[5], ("ForceAuth".to_string(), "true".to_string()));
    assert_eq!(params[6], ("old-token".to_string(), "".to_string()));
}

#[test]
fn test_change_offer_params_carry_choice() {
    let product = sample_product();
    let step = product.get_step("5.0").unwrap();
    let params = change_offer_params(&product, step);
    assert_eq!(params.len(), 13);
    assert_eq!(params[0], ("product".to_string(), "123321123".to_string()));
    assert_eq!(params[1], ("offerCode".to_string(), "POS-MA6-0005".to_string()));
    assert_eq!(params[2], ("areOffersAvailable".to_string(), "false".to_string()));
    assert_eq!(params[3], ("status".to_string(), "custom".to_string()));
    assert_eq!(params[4], ("autoprolong".to_string(), "0".to_string()));
    assert_eq!(params[5], ("isSlot".to_string(), "false".to_string()));
    assert_eq!(params[6], ("currentDevice".to_string(), "1".to_string()));
    assert_eq!(params[7], ("isDisablingAutoprolong".to_string(), "false".to_string()));
    assert_eq!(params[8], ("resourceId".to_string(), "".to_string()));
    assert_eq!(params[9], ("username".to_string(), "".to_string()));
    assert_eq!(params[10], ("homeOfferCode".to_string(), "".to_string()));
    assert_eq!(params[11], ("period".to_string(), "".to_string()));
    assert_eq!(params[12], ("homeOfferCode".to_string(), "".to_string()));
}
