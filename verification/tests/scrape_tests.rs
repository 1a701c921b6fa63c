use yota::scrape::{assoc_get, map_iccid_html, parse_device_html, remove_special_chars, Token};

fn yota_devices() -> String {
    let offer_code = "POS-MA6-0005";
    let step = format!(
        r#"{{
            "code": "{}",
            "amountNumber": "450",
            "amountString": "руб. в месяц",
            "remainNumber": "56",
            "remainString": "дней",
            "returnAmount": "0",
            "speedNumber": "5.0",
            "speedString": "Кбит/сек (макс.)",
            "description": "&nbsp;"
        }}"#,
        offer_code
    );
    let product = format!(
        r#"{{
            "offerCode": "{}",
            "productId": 123321123,
            "steps": [{1}, {1}, {1}],
            "status": "custom"
        }}"#,
        offer_code, step
    );
    format!(r#"{{ "123312123": {0}, "312123321": {0} }}"#, product)
}

fn yota_html(body: &str) -> String {
    let html = format!(
        r#"
        <html>
            <head></head>
            <script>
                {}
                // some js logic
            </script>
        </html>
        "#,
        body
    );
    String::from_utf8(remove_special_chars(html.as_bytes())).unwrap()
}

#[test]
fn test_parse_devices() {
    let data = yota_devices();
    let devices_html = yota_html(format!("var sliderData = {};", data).as_str());

    let result = parse_device_html(devices_html.as_bytes()).unwrap();
    assert_eq!(result, remove_special_chars(data.as_bytes()));
}

#[test]
fn test_parse_iccid_map() {
    let data = [("id123312", "iccid312123"), ("idtest", "iccidtest")];
    let html_body = data
        .iter()
        .map(|(k, v)| {
            format!(
                r#"<form action="/selfcare/devices/changeOffer" method="post">
                <input type="hidden" name="product" value="{}" />
            </form>
            <span class="mac">
                ICCID:{}
            </span>"#,
                k, v
            )
        })
        .fold("".to_string(), |mut acc, p| {
            acc.push_str(&p);
            acc.push('\n');
            acc
        });

    let html = yota_html(&html_body);
    let result = map_iccid_html(html.as_bytes());

    assert_eq!(result.iter().count(), 2);
    for (id, iccid) in data.iter() {
        let found = assoc_get(&result, iccid.as_bytes()).unwrap();
        assert_eq!(found.as_slice(), id.as_bytes());
    }
}

#[test]
fn test_remove_special_chars_strips_whitespace() {
    let cleaned = remove_special_chars(b"a b\tc\nd\re");
    assert_eq!(cleaned, b"abcde".to_vec());
}

#[test]
fn test_token_parse_plain() {
    let token = Token::new("<<", ">>");
    let html = b"junk<<payload>>more";
    let (start, end) = token.parse(html).unwrap();
    assert_eq!(&html[start..end], b"payload");
}

#[test]
fn test_token_parse_with_offset() {
    let mut token = Token::new("sliderData=", "};");
    token.set_offset(0, 1);
    let html = b"varsliderData={\"a\":1};rest";
    let (start, end) = token.parse(html).unwrap();
    assert_eq!(&html[start..end], b"{\"a\":1}");
}

#[test]
fn test_token_parse_missing_end() {
    let token = Token::new("<<", ">>");
    assert!(token.parse(b"junk<<payload").is_none());
}

#[test]
fn test_parse_device_html_error() {
    let err = parse_device_html(b"nothing here").unwrap_err();
    assert_eq!(err.message(), "Data representation is changed.");
}

#[test]
fn test_map_iccid_overwrites_duplicate() {
    // Two occurrences of one ICCID: the later product identifier wins.
    let html = "name=\"product\"value=\"first\"x ICCID:AAA</span>name=\"product\"value=\"second\"x ICCID:AAA</span>";
    let cleaned = remove_special_chars(html.as_bytes());
    let result = map_iccid_html(&cleaned);
    assert_eq!(result.len(), 1);
    let found = assoc_get(&result, b"AAA").unwrap();
    assert_eq!(found.as_slice(), b"second");
}
