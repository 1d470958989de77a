use kartei::card::Card;

fn fixture(name: &str) -> Vec<u8> {
    let text: &[u8] = match name {
        "folded-photo.vcf" => b"BEGIN:VCARD\r\nVERSION:3.0\r\nN:Photo;Paula;;;\r\nFN:Paula Photo\r\nTEL;TYPE=CELL:+49 170 1234567\r\nPHOTO;ENCODING=b;TYPE=JPEG:/9j/4AAQSkZJRgABAQAAAQABAAD/2wBDAAgGBgcGBQgHBwcJCQgKDBQNDAsLDBkSEw8\r\n UHRofHh0aHBwgJC4nICIsIxwcKDcpLDAxNDQ0Hyc5PTgyPC4zNDL/wAALCAABAAEBAREA/8QA\r\n AAAAAAAA/9k=\r\nEND:VCARD\r\n",
        "lf-endings.vcf" => b"BEGIN:VCARD\nVERSION:3.0\nN:Linefeed;Lena;;;\nFN:Lena Linefeed\nEMAIL:lena@example.org\nTEL;VALUE=uri:tel:+33-1-23-45-67-89\nEND:VCARD\n",
        "utf8-fold-midchar.vcf" => b"BEGIN:VCARD\r\nVERSION:3.0\r\nN:M\xc3\xbcller-L\xc3\xbcdenscheidt;J\xc3\xbcrgen;;;\r\nFN:J\xc3\xbcrgen M\xc3\xbcller-L\xc3\xbcdenscheidt \xc3\xa4\xc3\xb6\xc3\xbc \xc3\xa4\xc3\r\n \xb6\xc3\xbc\r\nEND:VCARD\r\n",
        "company.vcf" => b"BEGIN:VCARD\r\nVERSION:3.0\r\nN:;;;;\r\nFN:ACME Plumbing\r\nORG:ACME Plumbing;Emergency Repairs\r\nURL:https://acme.example\r\nNOTE:Open 24/7.\\nAsk for Bob\\, not Rob.\r\nEND:VCARD\r\n",
        _ => panic!("no such fixture: {name}"),
    };
    text.to_vec()
}

#[test]
fn every_fixture_round_trips_byte_for_byte() {
    for name in [
        "folded-photo.vcf",
        "lf-endings.vcf",
        "utf8-fold-midchar.vcf",
        "company.vcf",
    ] {
        let bytes = fixture(name);
        let card = Card::parse(&bytes).unwrap();
        assert_eq!(card.to_bytes(), bytes, "{name}");
    }
}

#[test]
fn folded_photo_card_reads_its_fields() {
    let card = Card::parse(&fixture("folded-photo.vcf")).unwrap();
    assert_eq!(card.display_name(), "Paula Photo");
    assert_eq!(card.phones()[0].value, "+49 170 1234567");
    let photo = card.lines().iter().find(|l| l.name() == "PHOTO").unwrap();
    assert!(photo.value().ends_with("AAAAAAAA/9k="));
    assert!(!photo.value().contains(' '));
}

#[test]
fn lf_card_reads_its_fields() {
    let card = Card::parse(&fixture("lf-endings.vcf")).unwrap();
    assert_eq!(card.display_name(), "Lena Linefeed");
    assert_eq!(card.structured_name(), ("Linefeed".into(), "Lena".into()));
    assert_eq!(card.emails()[0].value, "lena@example.org");
    assert_eq!(card.phones()[0].value, "tel:+33-1-23-45-67-89");
}

#[test]
fn fold_inside_a_utf8_character_unfolds_to_valid_text() {
    let card = Card::parse(&fixture("utf8-fold-midchar.vcf")).unwrap();
    assert!(card.display_name().ends_with("äöü äöü"));
    assert_eq!(
        card.structured_name(),
        ("Müller-Lüdenscheidt".into(), "Jürgen".into())
    );
}

#[test]
fn escaped_name_components_are_split_and_unescaped() {
    let card = Card::parse(
        b"BEGIN:VCARD\r\nN:Doe\\; Jr;Jane\\, Q;;;\r\nFN:Jane\\, Q Doe\r\nEND:VCARD\r\n",
    )
    .unwrap();
    assert_eq!(card.structured_name(), ("Doe; Jr".into(), "Jane, Q".into()));
    assert_eq!(card.display_name(), "Jane, Q Doe");
}

#[test]
fn property_names_match_case_insensitively() {
    let card = Card::parse(b"BEGIN:VCARD\r\nitem1.tel:123\r\nfn:x\r\nEND:VCARD\r\n").unwrap();
    assert_eq!(card.phones()[0].value, "123");
    assert_eq!(card.display_name(), "x");
}

#[test]
fn lines_keep_group_name_params_and_value() {
    let card = Card::parse(b"BEGIN:VCARD\r\nitem2.EMAIL;type=INTERNET;type=\"x;y\":a@b.c\r\nEND:VCARD\r\n").unwrap();
    let line = &card.lines()[1];
    assert_eq!(line.group(), Some("item2"));
    assert_eq!(line.name(), "EMAIL");
    assert_eq!(line.params(), ["type=INTERNET", "type=\"x;y\""]);
    assert_eq!(line.value(), "a@b.c");
}
