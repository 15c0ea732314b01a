use browser_utils::router::{fragment_name, render_home, route, util_entries, Page};
use browser_utils::text::{char_is_whitespace, chars_of, html_escape, same_text, split_chars, string_of, trim_chars};

#[test]
fn escape_replaces_markup() {
    assert_eq!(html_escape("a<b>&c"), "a&lt;b&gt;&amp;c");
    assert_eq!(html_escape("&lt;"), "&amp;lt;");
    assert_eq!(html_escape(""), "");
    assert_eq!(html_escape("plain \u{e9}"), "plain \u{e9}");
}

#[test]
fn escaped_text_has_no_angle_brackets() {
    let out = html_escape("<<script>>alert(1)</script>");
    assert!(!out.contains('<'));
    assert!(!out.contains('>'));
}

#[test]
fn escape_of_concatenation() {
    assert_eq!(
        html_escape("<a&b>"),
        format!("{}{}", html_escape("<a"), html_escape("&b>"))
    );
}

#[test]
fn trimming() {
    let t = trim_chars(&chars_of(" \t\n x y \u{2003}\u{3000}"));
    assert_eq!(string_of(&t), "x y");
    assert_eq!(trim_chars(&chars_of("   ")).len(), 0);
    assert_eq!(string_of(&trim_chars(&chars_of("\u{85}a\u{200b}"))), "a\u{200b}");
}

#[test]
fn trimming_twice_changes_nothing() {
    let once = trim_chars(&chars_of("  a b  "));
    assert_eq!(trim_chars(&once), once);
}

#[test]
fn splitting() {
    let pieces = split_chars(&chars_of("a..b."), '.');
    let texts: Vec<String> = pieces.iter().map(string_of).collect();
    assert_eq!(texts, vec!["a", "", "b", ""]);
    assert_eq!(split_chars(&chars_of(""), '.').len(), 1);
}

#[test]
fn splitting_then_joining_gives_back_the_text() {
    let text = "x.yy..zzz";
    let texts: Vec<String> = split_chars(&chars_of(text), '.')
        .iter()
        .map(string_of)
        .collect();
    assert_eq!(texts.len(), text.matches('.').count() + 1);
    assert_eq!(texts.join("."), text);
}

#[test]
fn comparing_text() {
    assert!(same_text("jwt", "jwt"));
    assert!(!same_text("jwt", "jw"));
    assert!(!same_text("abc", "abd"));
    assert!(same_text("", ""));
}

#[test]
fn routes() {
    assert_eq!(route("password-gen"), Page::PasswordGenerator);
    assert_eq!(route("jwt-decoder"), Page::JwtDecoder);
    assert_eq!(route(""), Page::Home);
    assert_eq!(route("jwt-decoder/"), Page::Home);
    assert_eq!(route("#jwt-decoder"), Page::Home);
}

#[test]
fn fragment_names() {
    assert_eq!(fragment_name("#jwt-decoder"), "jwt-decoder");
    assert_eq!(fragment_name("###password-gen"), "password-gen");
    assert_eq!(fragment_name(""), "");
    assert_eq!(fragment_name("a#b"), "a#b");
    assert_eq!(route(&fragment_name("##jwt-decoder")), Page::JwtDecoder);
}

#[test]
fn every_card_leads_to_its_page() {
    for entry in util_entries() {
        let link = format!("#{}", entry.id);
        assert_ne!(route(&fragment_name(&link)), Page::Home);
    }
}

#[test]
fn home_page_html() {
    let expected = "<div class=\"home\">\n            <h1>Utils</h1>\n            <p class=\"subtitle\">A collection of handy browser-based utilities</p>\n            <div class=\"grid\">\
<a class=\"card\" href=\"#password-gen\">\n                <h2>Password Generator</h2>\n                <p>Generate deterministic passwords from a seed phrase</p>\n            </a>\
<a class=\"card\" href=\"#jwt-decoder\">\n                <h2>JWT Decoder</h2>\n                <p>Decode and inspect JSON Web Token headers and payloads</p>\n            </a>\
</div></div>";
    assert_eq!(render_home(), expected);
}

#[test]
fn whitespace_matches_std() {
    for c in ['\t', '\n', '\u{b}', '\u{c}', '\r', ' ', '\u{85}', '\u{a0}', '\u{1680}', '\u{2000}',
              '\u{200a}', '\u{2028}', '\u{2029}', '\u{202f}', '\u{205f}', '\u{3000}', 'a', '\u{200b}',
              '\u{feff}', '\u{8}', '\u{e}', '\u{1f}'] {
        assert_eq!(char_is_whitespace(c), c.is_whitespace());
    }
    for code in 0u32..0x3100 {
        if let Some(c) = char::from_u32(code) {
            assert_eq!(char_is_whitespace(c), c.is_whitespace());
        }
    }
}
