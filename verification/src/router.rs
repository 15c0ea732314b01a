//! Which page the location fragment selects, and the home page that lists the
//! utilities.
use vstd::prelude::*;

use crate::text::{chars_of, same_text, string_of, sub_chars};

verus! {

/// The pages of the site.
#[derive(Debug, Clone, Copy, PartialEq, Eq, Structural)]
pub enum Page {
    PasswordGenerator,
    JwtDecoder,
    Home,
}

/// A utility listed on the home page.
pub struct UtilEntry {
    /// The location fragment that opens it.
    pub id: &'static str,
    pub name: &'static str,
    pub description: &'static str,
}

/// Fragment of the password generator.
pub const PASSWORD_GEN_ID: &'static str = "password-gen";

/// Fragment of the token decoder.
pub const JWT_DECODER_ID: &'static str = "jwt-decoder";

/// The page that the fragment name `name` selects.
pub open spec fn page_of(name: Seq<char>) -> Page {
    if name == PASSWORD_GEN_ID@ {
        Page::PasswordGenerator
    } else if name == JWT_DECODER_ID@ {
        Page::JwtDecoder
    } else {
        Page::Home
    }
}

/// `s` without the run of `c` it starts with.
pub open spec fn strip_leading(s: Seq<char>, c: char) -> Seq<char>
    decreases s.len(),
{
    if s.len() > 0 && s[0] == c {
        strip_leading(s.drop_first(), c)
    } else {
        s
    }
}

/// The fragment name in a location hash: the hash without its leading `#`s.
pub fn fragment_name(hash: &str) -> (name: String)
    ensures
        name@ == strip_leading(hash@, '#'),
{
    let chars = chars_of(hash);
    let n = chars.len();
    let mut i: usize = 0;
    assert(chars@.skip(0) =~= chars@);
    while i < n && chars[i] == '#'
        invariant
            i <= n == chars.len(),
            strip_leading(chars@, '#') == strip_leading(chars@.skip(i as int), '#'),
        decreases n - i,
    {
        assert(chars@.skip(i as int).drop_first() =~= chars@.skip(i + 1));
        i = i + 1;
    }
    let rest = sub_chars(&chars, i, n);
    assert(rest@ =~= chars@.skip(i as int));
    string_of(&rest)
}

/// The page that the fragment name `name` selects: the utility with that
/// id, or the home page.
pub fn route(name: &str) -> (page: Page)
    ensures
        page == page_of(name@),
{
    if same_text(name, PASSWORD_GEN_ID) {
        Page::PasswordGenerator
    } else if same_text(name, JWT_DECODER_ID) {
        Page::JwtDecoder
    } else {
        Page::Home
    }
}

/// The utilities listed on the home page: id, name and description.
pub open spec fn listed_utils() -> Seq<(Seq<char>, Seq<char>, Seq<char>)> {
    seq![
        (
            PASSWORD_GEN_ID@,
            "Password Generator"@,
            "Generate deterministic passwords from a seed phrase"@,
        ),
        (
            JWT_DECODER_ID@,
            "JWT Decoder"@,
            "Decode and inspect JSON Web Token headers and payloads"@,
        ),
    ]
}

/// An entry taken by the text of its fields.
pub open spec fn entry_view(e: UtilEntry) -> (Seq<char>, Seq<char>, Seq<char>) {
    (e.id@, e.name@, e.description@)
}

/// The utilities listed on the home page.
pub fn util_entries() -> (entries: Vec<UtilEntry>)
    ensures
        entries@.map_values(|e: UtilEntry| entry_view(e)) == listed_utils(),
{
    let entries = vec![
        UtilEntry {
            id: PASSWORD_GEN_ID,
            name: "Password Generator",
            description: "Generate deterministic passwords from a seed phrase",
        },
        UtilEntry {
            id: JWT_DECODER_ID,
            name: "JWT Decoder",
            description: "Decode and inspect JSON Web Token headers and payloads",
        },
    ];
    assert(entries@.map_values(|e: UtilEntry| entry_view(e)) =~= listed_utils());
    entries
}

/// The home page's card for one utility.
pub open spec fn util_card(entry: (Seq<char>, Seq<char>, Seq<char>)) -> Seq<char> {
    "<a class=\"card\" href=\"#"@ + entry.0 + "\">\n                <h2>"@ + entry.1
        + "</h2>\n                <p>"@ + entry.2 + "</p>\n            </a>"@
}

/// The cards of the given utilities, in order.
pub open spec fn util_cards(entries: Seq<(Seq<char>, Seq<char>, Seq<char>)>) -> Seq<char>
    decreases entries.len(),
{
    if entries.len() == 0 {
        Seq::<char>::empty()
    } else {
        util_cards(entries.drop_last()) + util_card(entries.last())
    }
}

/// The home page's HTML.
pub open spec fn home_page(entries: Seq<(Seq<char>, Seq<char>, Seq<char>)>) -> Seq<char> {
    "<div class=\"home\">\n            <h1>Utils</h1>\n            <p class=\"subtitle\">A collection of handy browser-based utilities</p>\n            <div class=\"grid\">"@
        + util_cards(entries) + "</div></div>"@
}

/// The HTML of the home page, with a card for each utility.
pub fn render_home() -> (html: String)
    ensures
        html@ == home_page(listed_utils()),
{
    let entries = util_entries();
    let ghost views = entries@.map_values(|e: UtilEntry| entry_view(e));
    let mut html = String::from_str(
        "<div class=\"home\">\n            <h1>Utils</h1>\n            <p class=\"subtitle\">A collection of handy browser-based utilities</p>\n            <div class=\"grid\">",
    );
    let ghost head = html@;
    let n = entries.len();
    let mut k: usize = 0;
    while k < n
        invariant
            k <= n == entries.len() == views.len(),
            views == entries@.map_values(|e: UtilEntry| entry_view(e)),
            html@ == head + util_cards(views.take(k as int)),
        decreases n - k,
    {
        let e = &entries[k];
        html.append("<a class=\"card\" href=\"#");
        html.append(e.id);
        html.append("\">\n                <h2>");
        html.append(e.name);
        html.append("</h2>\n                <p>");
        html.append(e.description);
        html.append("</p>\n            </a>");
        proof {
            assert(views.take(k + 1).drop_last() =~= views.take(k as int));
            assert(views[k as int] == entry_view(entries@[k as int]));
            assert(html@ =~= head + util_cards(views.take(k + 1)));
        }
        k = k + 1;
    }
    html.append("</div></div>");
    assert(views.take(n as int) =~= views);
    html
}

/// Every card on the home page leads to its utility's page: the fragment of
/// each listed utility selects that utility, never the home page, and the
/// link's `#` is stripped before the fragment is matched.
pub proof fn lemma_cards_lead_to_pages()
    ensures
        forall|i: int|
            0 <= i < listed_utils().len() ==> page_of(strip_leading(
                seq!['#'] + #[trigger] listed_utils()[i].0,
                '#',
            )) != Page::Home,
        page_of(listed_utils()[0].0) == Page::PasswordGenerator,
        page_of(listed_utils()[1].0) == Page::JwtDecoder,
{
    reveal_strlit("password-gen");
    reveal_strlit("jwt-decoder");
    let a = listed_utils()[0].0;
    let b = listed_utils()[1].0;
    assert((seq!['#'] + a).drop_first() =~= a);
    assert((seq!['#'] + b).drop_first() =~= b);
    assert(a[0] == 'p');
    assert(b[0] == 'j');
    assert(a != b);
    assert(strip_leading(a, '#') == a);
    assert(strip_leading(b, '#') == b);
    assert(strip_leading(seq!['#'] + a, '#') == a);
    assert(strip_leading(seq!['#'] + b, '#') == b);
    assert forall|i: int| 0 <= i < listed_utils().len() implies page_of(
        strip_leading(seq!['#'] + #[trigger] listed_utils()[i].0, '#'),
    ) != Page::Home by {
        if i == 0 {
            assert(listed_utils()[i].0 == a);
        } else {
            assert(listed_utils()[i].0 == b);
        }
    }
}

} // verus!
