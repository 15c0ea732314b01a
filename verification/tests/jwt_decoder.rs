use browser_utils::jwt::{
    colorize_token, decode_jwt, decode_part, plan_output, present_outcome, settle_json,
    DecodeError, DecodedJwt, JwtPart, OutputBody,
};

#[test]
fn rejects_missing_parts() {
    assert_eq!(
        decode_jwt("only.two").unwrap_err(),
        DecodeError::InvalidStructure
    );
}

#[test]
fn rejects_too_many_parts() {
    assert_eq!(
        decode_jwt("a.b.c.d").unwrap_err(),
        DecodeError::InvalidStructure
    );
}

#[test]
fn rejects_empty_input() {
    assert_eq!(decode_jwt("").unwrap_err(), DecodeError::InvalidStructure);
}

#[test]
fn rejects_invalid_base64_header() {
    assert!(matches!(
        decode_jwt("!!!.valid.sig"),
        Err(DecodeError::InvalidBase64(JwtPart::Header))
    ));
}

#[test]
fn rejects_single_part() {
    assert_eq!(
        decode_jwt("onlyonepart").unwrap_err(),
        DecodeError::InvalidStructure
    );
}

#[test]
fn structure_is_checked_after_trimming() {
    assert_eq!(
        decode_jwt("  \t a.b \n").unwrap_err(),
        DecodeError::InvalidStructure
    );
    assert_eq!(decode_jwt(" \u{3000} ").unwrap_err(), DecodeError::InvalidStructure);
    assert!(matches!(
        decode_jwt("\n !!!.x.y\u{a0}"),
        Err(DecodeError::InvalidBase64(JwtPart::Header))
    ));
}

#[test]
fn empty_parts_beyond_three_are_refused() {
    assert_eq!(decode_jwt("...").unwrap_err(), DecodeError::InvalidStructure);
    assert_eq!(decode_jwt(".").unwrap_err(), DecodeError::InvalidStructure);
}

#[test]
fn signature_is_not_examined() {
    assert_eq!(
        decode_jwt("!!!.x.anything").unwrap_err(),
        decode_jwt("!!!.x.").unwrap_err()
    );
}

#[test]
fn padded_base64_is_refused() {
    assert_eq!(
        decode_jwt("e30=.e30.sig").unwrap_err(),
        DecodeError::InvalidBase64(JwtPart::Header)
    );
    assert_eq!(
        decode_part("e30=", JwtPart::Payload).unwrap_err(),
        DecodeError::InvalidBase64(JwtPart::Payload)
    );
}

#[test]
fn bad_length_base64_is_refused() {
    assert_eq!(
        decode_part("e", JwtPart::Header).unwrap_err(),
        DecodeError::InvalidBase64(JwtPart::Header)
    );
}

#[test]
fn non_utf8_header_is_refused() {
    // "_w" decodes to the single byte 0xff.
    assert_eq!(
        decode_jwt("_w.e30.sig").unwrap_err(),
        DecodeError::InvalidUtf8(JwtPart::Header)
    );
    assert_eq!(
        decode_part("_w", JwtPart::Payload).unwrap_err(),
        DecodeError::InvalidUtf8(JwtPart::Payload)
    );
}

#[test]
fn error_messages() {
    assert_eq!(
        DecodeError::InvalidStructure.message(),
        "JWT must have exactly 3 dot-separated parts"
    );
    assert_eq!(
        DecodeError::InvalidBase64(JwtPart::Header).message(),
        "Header contains invalid base64url characters"
    );
    assert_eq!(
        DecodeError::InvalidBase64(JwtPart::Payload).message(),
        "Payload contains invalid base64url characters"
    );
    assert_eq!(
        DecodeError::InvalidUtf8(JwtPart::Header).message(),
        "Header is not valid UTF-8"
    );
    assert_eq!(
        DecodeError::InvalidUtf8(JwtPart::Payload).message(),
        "Payload is not valid UTF-8"
    );
    assert_eq!(
        DecodeError::InvalidJson(JwtPart::Header).message(),
        "Header is not valid JSON"
    );
    assert_eq!(
        DecodeError::InvalidJson(JwtPart::Payload).message(),
        "Payload is not valid JSON"
    );
}

#[test]
fn settle_json_outcomes() {
    assert_eq!(
        settle_json(JwtPart::Header, "{}".to_string(), None).unwrap_err(),
        DecodeError::InvalidJson(JwtPart::Header)
    );
    assert_eq!(
        settle_json(JwtPart::Payload, "{\"a\":1}".to_string(), Some(None)).unwrap(),
        "{\"a\":1}"
    );
    assert_eq!(
        settle_json(
            JwtPart::Payload,
            "{\"a\":1}".to_string(),
            Some(Some("{\n  \"a\": 1\n}".to_string()))
        )
        .unwrap(),
        "{\n  \"a\": 1\n}"
    );
}

#[test]
fn colorize_three_parts() {
    assert_eq!(
        colorize_token("a.b<.c&"),
        "<span class=\"jwt-part-header\">a</span>\
<span class=\"jwt-part-dot\">.</span>\
<span class=\"jwt-part-payload\">b&lt;</span>\
<span class=\"jwt-part-dot\">.</span>\
<span class=\"jwt-part-signature\">c&amp;</span>"
    );
}

#[test]
fn colorize_other_shapes() {
    assert_eq!(colorize_token("a>b.c"), "a&gt;b.c");
    assert_eq!(colorize_token(""), "");
    assert_eq!(colorize_token("a.b.c.d"), "a.b.c.d");
}

#[test]
fn colorize_keeps_surrounding_whitespace() {
    assert_eq!(
        colorize_token(" x.y.z "),
        "<span class=\"jwt-part-header\"> x</span>\
<span class=\"jwt-part-dot\">.</span>\
<span class=\"jwt-part-payload\">y</span>\
<span class=\"jwt-part-dot\">.</span>\
<span class=\"jwt-part-signature\">z </span>"
    );
}

#[test]
fn present_decoded_parts() {
    let body = present_outcome(Ok(DecodedJwt {
        header: "{\"alg\": \"<none>\"}".to_string(),
        payload: "{}".to_string(),
    }));
    match body {
        OutputBody::Decoded {
            header_html,
            payload_html,
        } => {
            assert_eq!(header_html, "<pre>{\"alg\": \"&lt;none&gt;\"}</pre>");
            assert_eq!(payload_html, "<pre>{}</pre>");
        }
        _ => panic!("expected decoded parts"),
    }
}

#[test]
fn present_error_message() {
    match present_outcome(Err(DecodeError::InvalidUtf8(JwtPart::Payload))) {
        OutputBody::Failed { message } => assert_eq!(message, "Payload is not valid UTF-8"),
        _ => panic!("expected an error message"),
    }
}

#[test]
fn plan_for_blank_input() {
    let plan = plan_output("  \n ");
    assert!(matches!(plan.body, OutputBody::Clear));
    assert_eq!(plan.highlight_html, "  \n ");
}

#[test]
fn plan_for_malformed_input() {
    let plan = plan_output("a<b");
    assert_eq!(plan.highlight_html, "a&lt;b");
    match plan.body {
        OutputBody::Failed { message } => {
            assert_eq!(message, "JWT must have exactly 3 dot-separated parts")
        }
        _ => panic!("expected an error message"),
    }
}

#[test]
fn plan_for_bad_header() {
    let plan = plan_output("_w.e30.sig");
    match plan.body {
        OutputBody::Failed { message } => assert_eq!(message, "Header is not valid UTF-8"),
        _ => panic!("expected an error message"),
    }
}
