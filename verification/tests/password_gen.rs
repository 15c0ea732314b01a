use browser_utils::password::{build_charset, generate_password, hash_seed, parse_usize, requested_length};

#[test]
fn deterministic_output() {
    let a = generate_password("test-seed", 16, true, true);
    let b = generate_password("test-seed", 16, true, true);
    assert_eq!(a, b);
}

#[test]
fn different_seeds_differ() {
    let a = generate_password("seed-one", 16, true, true);
    let b = generate_password("seed-two", 16, true, true);
    assert_ne!(a, b);
}

#[test]
fn respects_length() {
    let pw = generate_password("test", 32, true, true);
    assert_eq!(pw.len(), 32);
}

#[test]
fn empty_seed_empty_output() {
    let pw = generate_password("", 16, true, true);
    assert!(pw.is_empty());
}

#[test]
fn no_digits_when_disabled() {
    let pw = generate_password("test-seed-long", 100, false, false);
    assert!(!pw.chars().any(|c| c.is_ascii_digit()));
}

#[test]
fn contains_variety() {
    let pw = generate_password("variety-test-seed", 64, true, true);
    assert!(pw.chars().any(|c| c.is_ascii_lowercase()));
    assert!(pw.chars().any(|c| c.is_ascii_uppercase()));
}

#[test]
fn known_passwords() {
    assert_eq!(generate_password("test-seed", 16, true, true), "F2ERo>(ywDZ*g16g");
    assert_eq!(generate_password("seed-one", 16, true, true), "p{uUVQk^gXA!{o8v");
    assert_eq!(generate_password("seed-two", 16, true, true), "*iXpLG>m84?%5$*l");
    assert_eq!(
        generate_password("test", 32, true, true),
        "#p>@Yr60aZ-_Y_0dkRqiQFqB,NdJ_6d#"
    );
    assert_eq!(
        generate_password("test-seed-long", 100, false, false),
        "FszErhtQpDjhJNbCGaRSzFqVgsBKVSKuOpUaIIqmfPduDOukcVzhdNoMmCKvWmkTSnFSylcdOAmAsxTaSJDTQNERpBLfOfAgejId"
    );
    assert_eq!(
        generate_password("variety-test-seed", 64, true, true),
        "fjgRf#REAdi$)mG6cs=O}p.OI(zYr,[a1iEriS5%T+N1{L6FXNe6;rKann13E=*T"
    );
    assert_eq!(generate_password("a", 5, false, true), "oB;SZ");
    assert_eq!(generate_password("h\u{e9}llo", 12, true, false), "DzRoKWSCsTZc");
}

#[test]
fn zero_length_password() {
    assert_eq!(generate_password("seed", 0, true, true), "");
}

#[test]
fn known_hash_bytes() {
    assert_eq!(
        hash_seed("abc", 10),
        vec![198u8, 79, 39, 236, 173, 205, 70, 24, 124, 244]
    );
    assert_eq!(hash_seed("x", 0), Vec::<u8>::new());
    assert_eq!(hash_seed("", 3), vec![0u8, 0, 0]);
}

#[test]
fn hash_length_matches_request() {
    for n in [0usize, 1, 7, 8, 9, 15, 16, 17, 64, 65] {
        assert_eq!(hash_seed("seed", n).len(), n);
    }
}

#[test]
fn hash_prefixes_agree() {
    let long = hash_seed("prefix", 40);
    let short = hash_seed("prefix", 13);
    assert_eq!(&long[..13], &short[..]);
}

#[test]
fn charset_sizes() {
    assert_eq!(build_charset(false, false).len(), 52);
    assert_eq!(build_charset(true, false).len(), 62);
    assert_eq!(build_charset(false, true).len(), 78);
    assert_eq!(build_charset(true, true).len(), 88);
    let all: String = build_charset(true, true).into_iter().collect();
    assert_eq!(
        all,
        "abcdefghijklmnopqrstuvwxyzABCDEFGHIJKLMNOPQRSTUVWXYZ0123456789!@#$%^&*()-_=+[]{}|;:,.<>?"
    );
}

#[test]
fn letters_only_when_nothing_else_asked() {
    let pw = generate_password("letters", 200, false, false);
    assert!(pw.chars().all(|c| c.is_ascii_alphabetic()));
    let pw = generate_password("letters", 200, true, false);
    assert!(pw.chars().all(|c| c.is_ascii_alphanumeric()));
    let pw = generate_password("letters", 200, false, true);
    assert!(!pw.chars().any(|c| c.is_ascii_digit()));
}

#[test]
fn slider_lengths() {
    assert_eq!(requested_length("24"), 24);
    assert_eq!(requested_length("+7"), 7);
    assert_eq!(requested_length("008"), 8);
    assert_eq!(requested_length("x"), 16);
    assert_eq!(requested_length(""), 16);
    assert_eq!(requested_length("+"), 16);
    assert_eq!(requested_length("-3"), 16);
    assert_eq!(requested_length(" 5"), 16);
    assert_eq!(requested_length("99999999999999999999999"), 16);
}

#[test]
fn shorter_password_starts_longer_one() {
    let short = generate_password("prefix-seed", 10, true, true);
    let long = generate_password("prefix-seed", 30, true, true);
    assert!(long.starts_with(&short));
}

#[test]
fn parsing_unsigned_numbers() {
    assert_eq!(parse_usize("0"), Some(0));
    assert_eq!(parse_usize("+42"), Some(42));
    assert_eq!(parse_usize("007"), Some(7));
    assert_eq!(parse_usize(&usize::MAX.to_string()), Some(usize::MAX));
    assert_eq!(parse_usize("18446744073709551616"), None);
    assert_eq!(parse_usize("++1"), None);
    assert_eq!(parse_usize("1_0"), None);
    assert_eq!(parse_usize("\u{661}"), None);
    assert_eq!(parse_usize(""), None);
    for text in ["0", "12", "+9", "-1", "x", "4 ", "99999999999999999999", "+"] {
        assert_eq!(parse_usize(text), text.parse::<usize>().ok());
    }
}
