use kartei::form::{form_field, Form};
use kartei::key::{Key, KeyCode};
use kartei::card::{derived_display_name, Address, Birthday, Card, Defect, Field, Labeled, Organization};

fn fixture_bytes(name: &str) -> Vec<u8> {
    let text: &[u8] = match name {
        "apple-grouped-labels.vcf" => b"BEGIN:VCARD\r\nVERSION:3.0\r\nN:Garcia;Gabriela;;;\r\nFN:Gabriela Garcia\r\nitem1.TEL;type=CELL;type=VOICE;type=pref:+34 600 111 222\r\nitem1.X-ABLabel:_$!<Mobile>!$_\r\nitem2.TEL:+34 600 333 444\r\nitem2.X-ABLabel:Gym\r\nTEL;type=CELL;type=VOICE:+34 600 555 666\r\nEMAIL;type=INTERNET;type=HOME;type=pref:gabi@example.org\r\nitem3.EMAIL;type=INTERNET:gabi@work.example\r\nitem3.X-ABLabel:_$!<Work>!$_\r\nADR;type=HOME;type=pref:;;Calle Mayor 1;Madrid;;28013;Spain\r\nEND:VCARD\r\n",
        "fn-custom.vcf" => b"BEGIN:VCARD\r\nVERSION:3.0\r\nN:Doe;John;;;\r\nFN:Johnny D.\r\nBDAY:1985-07-04\r\nEND:VCARD\r\n",
        "apple-omit-year.vcf" => b"BEGIN:VCARD\r\nVERSION:3.0\r\nN:Ortega;Omar;;;\r\nFN:Omar Ortega\r\nBDAY;X-APPLE-OMIT-YEAR=1604:1604-03-15\r\nEND:VCARD\r\n",
        "v4-yearless.vcf" => b"BEGIN:VCARD\r\nVERSION:4.0\r\nN:Vogel;Vera;;;\r\nFN:Vera Vogel\r\nBDAY:--0315\r\nEND:VCARD\r\n",
        "escaped-adr.vcf" => b"BEGIN:VCARD\r\nVERSION:3.0\r\nN:Meier;Max;;;\r\nFN:Max Meier\r\nADR;TYPE=work:PO Box 7;Building B;Hauptstr. 5\\, Hinterhaus\\nc/o Meier\\; 2. OG;Berlin;Berlin;10115;Germany\r\nEND:VCARD\r\n",
        "company.vcf" => b"BEGIN:VCARD\r\nVERSION:3.0\r\nN:;;;;\r\nFN:ACME Plumbing\r\nORG:ACME Plumbing;Emergency Repairs\r\nTEL;TYPE=work:+1 555 0100\r\nURL:https://acme.example\r\nURL:https://acme.example/emergency\r\nNOTE:Open 24/7.\\nAsk for Bob\\, not Rob.\r\nEND:VCARD\r\n",
        "bad-no-begin.vcf" => b"VERSION:3.0\r\nFN:No Begin\r\nEND:VCARD\r\n",
        "bad-no-end.vcf" => b"BEGIN:VCARD\r\nVERSION:3.0\r\nFN:No End\r\n",
        "bad-multiple-vcards.vcf" => b"BEGIN:VCARD\r\nFN:First\r\nBEGIN:VC\r\n ARD\r\nFN:Second\r\nEND:VCARD\r\n",
        "bad-invalid-utf8.vcf" => b"BEGIN:VCARD\r\nFN:Bad \xff\r\nEND:VCARD\r\n",
        _ => panic!("no such fixture: {name}"),
    };
    text.to_vec()
}

fn fixture(name: &str) -> Card {
    Card::parse(&fixture_bytes(name)).unwrap()
}

fn labeled(values: &[Labeled<String>]) -> Vec<(Option<&str>, &str)> {
    values
        .iter()
        .map(|v| (v.label.as_deref(), v.value.as_str()))
        .collect()
}

#[test]
fn apple_grouped_labels_are_decoded() {
    let card = fixture("apple-grouped-labels.vcf");
    assert_eq!(
        labeled(&card.phones()),
        [
            (Some("Mobile"), "+34 600 111 222"),
            (Some("Gym"), "+34 600 333 444"),
            (Some("cell"), "+34 600 555 666"),
        ]
    );
    assert_eq!(
        labeled(&card.emails()),
        [
            (Some("home"), "gabi@example.org"),
            (Some("Work"), "gabi@work.example"),
        ]
    );
}

#[test]
fn values_without_type_or_group_have_no_label() {
    let card = Card::parse(b"BEGIN:VCARD\r\nTEL:1\r\nitem1.EMAIL:a@b\r\nEND:VCARD\r\n").unwrap();
    assert_eq!(labeled(&card.phones()), [(None, "1")]);
    assert_eq!(labeled(&card.emails()), [(None, "a@b")]);
}

fn birthday(bday: &str) -> Option<Birthday> {
    Card::parse(format!("BEGIN:VCARD\r\n{bday}\r\nEND:VCARD\r\n").as_bytes())
        .unwrap()
        .birthday()
}

fn date(year: Option<u16>, month: u8, day: u8) -> Option<Birthday> {
    Some(Birthday::Date { year, month, day })
}

#[test]
fn full_date_birthday_keeps_its_year() {
    let bday = fixture("fn-custom.vcf").birthday().unwrap();
    assert_eq!(Some(bday.clone()), date(Some(1985), 7, 4));
    assert_eq!(bday.to_text(), "4 July 1985");
    assert!(!bday.is_read_only());
}

#[test]
fn apple_omit_year_birthday_has_no_year() {
    let bday = fixture("apple-omit-year.vcf").birthday().unwrap();
    assert_eq!(Some(bday.clone()), date(None, 3, 15));
    assert_eq!(bday.to_text(), "15 March");
}

#[test]
fn v4_yearless_birthdays_have_no_year() {
    assert_eq!(fixture("v4-yearless.vcf").birthday(), date(None, 3, 15));
    assert_eq!(birthday("BDAY:--03-15"), date(None, 3, 15));
}

#[test]
fn other_date_forms_are_read() {
    assert_eq!(birthday("BDAY:19850704"), date(Some(1985), 7, 4));
    assert_eq!(
        birthday("BDAY:1985-07-04T00:00:00Z"),
        date(Some(1985), 7, 4)
    );
    assert_eq!(
        birthday("BDAY;VALUE=date:2000-02-29"),
        date(Some(2000), 2, 29)
    );
}

#[test]
fn invalid_birthday_is_raw_and_read_only() {
    for raw in [
        "sometime in spring",
        "1985-13-01",
        "2001-02-29",
        "--02-30",
        "+985-07-04",
        "--0",
        "",
    ] {
        let bday = birthday(&format!("BDAY:{raw}")).unwrap();
        assert_eq!(bday, Birthday::Invalid(raw.into()));
        assert!(bday.is_read_only());
        assert_eq!(bday.to_text(), raw);
    }
}

#[test]
fn card_without_birthday_has_none() {
    assert_eq!(fixture("apple-grouped-labels.vcf").birthday(), None);
}

#[test]
fn escaped_address_components_are_split_and_unescaped() {
    let addresses = fixture("escaped-adr.vcf").addresses();
    assert_eq!(
        addresses,
        [Labeled {
            label: Some("work".into()),
            value: Address {
                po_box: "PO Box 7".into(),
                extended: "Building B".into(),
                street: "Hauptstr. 5, Hinterhaus\nc/o Meier; 2. OG".into(),
                city: "Berlin".into(),
                region: "Berlin".into(),
                postal_code: "10115".into(),
                country: "Germany".into(),
            },
        }]
    );
}

#[test]
fn grouped_address_with_missing_components_reads_empty() {
    let addresses = fixture("apple-grouped-labels.vcf").addresses();
    assert_eq!(addresses[0].label.as_deref(), Some("home"));
    assert_eq!(addresses[0].value.street, "Calle Mayor 1");
    assert_eq!(addresses[0].value.postal_code, "28013");
    let short = Card::parse(b"BEGIN:VCARD\r\nADR:;;Main St\r\nEND:VCARD\r\n")
        .unwrap()
        .addresses();
    assert_eq!(short[0].value.street, "Main St");
    assert_eq!(short[0].value.country, "");
}

#[test]
fn company_card_reads_organization_note_and_urls() {
    let card = fixture("company.vcf");
    assert_eq!(card.display_name(), "ACME Plumbing");
    assert_eq!(card.structured_name(), (String::new(), String::new()));
    assert_eq!(
        card.organization(),
        Some(Organization {
            company: "ACME Plumbing".into(),
            department: "Emergency Repairs".into(),
        })
    );
    assert_eq!(
        card.note().as_deref(),
        Some("Open 24/7.\nAsk for Bob, not Rob.")
    );
    assert_eq!(
        card.urls(),
        ["https://acme.example", "https://acme.example/emergency"]
    );
    assert_eq!(labeled(&card.phones()), [(Some("work"), "+1 555 0100")]);
}

#[test]
fn card_without_organization_or_note_has_none() {
    let card = fixture("fn-custom.vcf");
    assert_eq!(card.organization(), None);
    assert_eq!(card.note(), None);
    assert!(card.urls().is_empty());
}

fn defect(name: &str) -> Defect {
    Card::parse(&fixture_bytes(name)).unwrap_err()
}

#[test]
fn files_that_are_not_a_single_card_are_rejected() {
    assert_eq!(defect("bad-no-begin.vcf"), Defect::NoBegin);
    assert_eq!(defect("bad-no-end.vcf"), Defect::NoEnd);
    assert_eq!(defect("bad-multiple-vcards.vcf"), Defect::MultipleCards);
    assert_eq!(defect("bad-invalid-utf8.vcf"), Defect::InvalidUtf8);
    assert_eq!(Card::parse(b""), Err(Defect::NoBegin));
}

#[test]
fn blank_lines_around_a_card_are_accepted() {
    let card = Card::parse(b"\r\nBEGIN:VCARD\r\nFN:x\r\nEND:VCARD\r\n\r\n").unwrap();
    assert_eq!(card.display_name(), "x");
}

fn edited(bytes: &str, field: Field, value: &str) -> String {
    let mut card = Card::parse(bytes.as_bytes()).unwrap();
    card.set(field, value);
    String::from_utf8(card.to_bytes()).unwrap()
}

#[test]
fn setting_a_name_part_rewrites_only_that_component() {
    assert_eq!(
        edited(
            "BEGIN:VCARD\r\nN:Doe\\, Sr;Jane;Q;;\r\nFN:Jane Doe\r\nEND:VCARD\r\n",
            Field::Given,
            "Ann; Marie",
        ),
        "BEGIN:VCARD\r\nN:Doe\\, Sr;Ann\\; Marie;Q;;\r\nFN:Jane Doe\r\nEND:VCARD\r\n"
    );
}

#[test]
fn setting_a_missing_property_appends_it_before_end_with_the_cards_line_ending() {
    assert_eq!(
        edited("BEGIN:VCARD\nFN:x\nEND:VCARD", Field::Note, "a,b\nc\\"),
        "BEGIN:VCARD\nFN:x\nNOTE:a\\,b\\nc\\\\\nEND:VCARD"
    );
    assert_eq!(
        edited("BEGIN:VCARD\r\nFN:x\r\nEND:VCARD\r\n", Field::Given, "Ann"),
        "BEGIN:VCARD\r\nFN:x\r\nN:;Ann;;;\r\nEND:VCARD\r\n"
    );
}

#[test]
fn clearing_note_or_organization_removes_the_line() {
    let card = "BEGIN:VCARD\r\nFN:x\r\nORG:ACME;\r\nNOTE:hi\r\nEND:VCARD\r\n";
    assert_eq!(
        edited(card, Field::Note, ""),
        "BEGIN:VCARD\r\nFN:x\r\nORG:ACME;\r\nEND:VCARD\r\n"
    );
    assert_eq!(
        edited(card, Field::Company, ""),
        "BEGIN:VCARD\r\nFN:x\r\nNOTE:hi\r\nEND:VCARD\r\n"
    );
}

#[test]
fn setting_an_unchanged_value_keeps_the_original_bytes() {
    let card = "BEGIN:VCARD\r\nitem1.fn;CHARSET=utf-8:Jane\r\nEND:VCARD\r\n";
    assert_eq!(edited(card, Field::DisplayName, "Jane"), card);
    assert_eq!(
        edited(card, Field::DisplayName, "Jo"),
        "BEGIN:VCARD\r\nitem1.fn;CHARSET=utf-8:Jo\r\nEND:VCARD\r\n"
    );
}

#[test]
fn long_values_fold_at_75_octets_without_splitting_characters() {
    let value = format!("{}ü{}", "a".repeat(73), "b".repeat(80));
    assert_eq!(
        edited("BEGIN:VCARD\r\nEND:VCARD\r\n", Field::Note, &value),
        format!(
            "BEGIN:VCARD\r\nNOTE:{}\r\n {}ü{}\r\n {}\r\nEND:VCARD\r\n",
            "a".repeat(70),
            "a".repeat(3),
            "b".repeat(69),
            "b".repeat(11)
        )
    );
}

#[test]
fn display_name_derives_from_name_parts_in_reading_order() {
    let parts = |field| match field {
        Field::Prefixes => "Dr.",
        Field::Given => "Jane",
        Field::Additional => "",
        Field::Family => "Doe",
        _ => "PhD",
    };
    assert_eq!(
        derived_display_name(|field| parts(field).to_owned()),
        "Dr. Jane Doe PhD"
    );
}

#[test]
fn a_set_value_reads_back() {
    let mut card = Card::parse(b"BEGIN:VCARD\r\nN:Doe;Jane;;;\r\nORG:ACME\r\nEND:VCARD\r\n").unwrap();
    card.set(Field::Department, "R;D, Labs");
    assert_eq!(card.get(Field::Department), "R;D, Labs");
    assert_eq!(card.get(Field::Company), "ACME");
    card.set(Field::Family, "Roe\\");
    assert_eq!(card.structured_name(), ("Roe\\".into(), "Jane".into()));
}

#[test]
fn writing_a_parsed_card_gives_its_bytes_back() {
    for bytes in [
        &b"BEGIN:VCARD\r\nFN:x\r\nEND:VCARD\r\n"[..],
        &b"\r\nBEGIN:VCARD\nNOTE:long\r\n  folded\r\n\tline\nEND:VCARD"[..],
        &b"BEGIN:VCARD\r\nitem1.TEL;TYPE=\"a:b\":1\r\nEND:VCARD\r\n"[..],
    ] {
        assert_eq!(Card::parse(bytes).unwrap().to_bytes(), bytes);
    }
}

#[test]
fn defects_have_messages() {
    assert_eq!(Defect::NoBegin.message(), "no BEGIN:VCARD");
    assert_eq!(Defect::NoEnd.message(), "no END:VCARD");
    assert_eq!(Defect::MultipleCards.message(), "more than one VCARD");
    assert_eq!(Defect::InvalidUtf8.message(), "invalid UTF-8");
}

#[test]
fn birthdays_write_as_iso_dates() {
    assert_eq!(Birthday::from_iso("1985-07-04"), date(Some(1985), 7, 4));
    assert_eq!(Birthday::from_iso("--03-15"), date(None, 3, 15));
    assert_eq!(Birthday::from_iso("1985-02-30"), None);
    assert_eq!(date(Some(85), 7, 4).unwrap().to_iso(), "0085-07-04");
    assert_eq!(date(None, 3, 5).unwrap().to_iso(), "--03-05");
}

fn written_then_read(year: Option<u16>, month: u8, day: u8, existing: Option<(&[String], &str)>, is_v4: bool) -> Option<Birthday> {
    let (params, value) = Birthday::write(year, month, day, existing, is_v4);
    let mut line = String::from("BDAY");
    for p in &params {
        line.push(';');
        line.push_str(p);
    }
    line.push(':');
    line.push_str(&value);
    birthday(&line)
}

#[test]
fn a_written_birthday_reads_back_as_the_same_date() {
    assert_eq!(written_then_read(Some(1985), 7, 4, None, false), date(Some(1985), 7, 4));
    assert_eq!(written_then_read(Some(1985), 7, 4, None, true), date(Some(1985), 7, 4));
    assert_eq!(written_then_read(None, 2, 29, None, false), date(None, 2, 29));
    assert_eq!(written_then_read(None, 2, 29, None, true), date(None, 2, 29));
    let apple = vec!["X-APPLE-OMIT-YEAR=1604".to_string()];
    let no_params: Vec<String> = Vec::new();
    assert_eq!(
        written_then_read(None, 12, 24, Some((apple.as_slice(), "1604-03-15")), false),
        date(None, 12, 24)
    );
    assert_eq!(
        written_then_read(Some(2000), 12, 24, Some((apple.as_slice(), "1604-03-15")), false),
        date(Some(2000), 12, 24)
    );
    assert_eq!(
        written_then_read(Some(1990), 1, 2, Some((no_params.as_slice(), "19850704T000000Z")), true),
        date(Some(1990), 1, 2)
    );
}

#[test]
fn a_set_field_reads_back_whatever_the_old_value_held() {
    let mut card = Card::parse(b"BEGIN:VCARD\r\nFN:Ann\\\r\nNOTE:one\r\nNOTE:two\r\nEND:VCARD\r\n").unwrap();
    card.set(Field::DisplayName, "Bea");
    assert_eq!(card.get(Field::DisplayName), "Bea");
    card.set(Field::Note, "three");
    assert_eq!(card.get(Field::Note), "three");
    assert_eq!(
        String::from_utf8(card.to_bytes()).unwrap(),
        "BEGIN:VCARD\r\nFN:Bea\r\nNOTE:three\r\nNOTE:two\r\nEND:VCARD\r\n"
    );
    let mut suffix = Card::parse(b"BEGIN:VCARD\r\nN:Doe;Jo;;;Jr\\\r\nEND:VCARD\r\n").unwrap();
    suffix.set(Field::Suffixes, "Sr");
    assert_eq!(suffix.get(Field::Suffixes), "Sr");
    assert_eq!(suffix.get(Field::Family), "Doe");
}

#[test]
fn an_applied_form_sets_every_field_to_its_input() {
    let card = Card::parse(
        b"BEGIN:VCARD\r\nVERSION:3.0\r\nN:Doe;John;;;\r\nFN:John Doe\r\nNOTE:old\r\nEND:VCARD\r\n",
    )
    .unwrap();
    let mut form = Form::new(&card);
    for i in 0..9 {
        let c = char::from(b'a' + i as u8);
        form.handle_key(Key::plain(KeyCode::Char(c)));
        form.handle_key(Key::plain(KeyCode::Tab));
    }
    let edited = form.apply(&card);
    for (i, input) in form.inputs().iter().enumerate() {
        let (field, _) = form_field(i);
        assert_eq!(edited.get(field), input.text());
    }
    assert_eq!(edited.get(Field::Company), "g");
    assert_eq!(edited.get(Field::Note), "oldi");
}

#[test]
fn a_card_with_a_field_set_reads_back_from_its_bytes() {
    let mut card = Card::parse(
        b"BEGIN:VCARD\r\nVERSION:3.0\r\nN:Doe;John;;;\r\nFN:John Doe\r\nitem1.ORG:Acme;Sales\r\nNOTE:old\r\nEND:VCARD\r\n",
    )
    .unwrap();
    card.set(Field::Note, &"long note ".repeat(12));
    card.set(Field::Department, "");
    card.set(Field::Company, "");
    card.set(Field::Prefixes, "Dr.");
    assert_eq!(Card::parse(&card.to_bytes()).unwrap(), card);
    let mut bare = Card::parse(b"BEGIN:VCARD\nFN:X\nEND:VCARD\n").unwrap();
    bare.set(Field::Company, "Initech");
    assert_eq!(Card::parse(&bare.to_bytes()).unwrap(), bare);
    assert_eq!(bare.get(Field::Company), "Initech");
}
