use kartei::app::{App, Mode};
use kartei::card::Card;
use kartei::key::{Key, KeyCode};
use kartei::vdir::{self, AddressBook};
use kartei::view;

fn book(dir: &str, cards: &[(&str, &str)]) -> AddressBook {
    let files: Vec<(String, Vec<u8>)> = cards
        .iter()
        .map(|(file, body)| (format!("{dir}/{file}"), body.as_bytes().to_vec()))
        .collect();
    vdir::from_files(dir, &files)
}

fn card(structured_name: &str, display_name: &str, tel: &str, email: &str) -> String {
    format!(
        "BEGIN:VCARD\r\nVERSION:3.0\r\nN:{structured_name}\r\nFN:{display_name}\r\nTEL:{tel}\r\nEMAIL:{email}\r\nEND:VCARD\r\n"
    )
}

fn press(app: &mut App, code: KeyCode) {
    assert!(app.handle_key(Key::plain(code)).is_none());
}

fn detail(app: &App) -> String {
    app.selected_card()
        .map(|card| view::details(card).join("\n"))
        .unwrap_or_default()
}

fn status(app: &App) -> String {
    let mut line = view::HINTS.to_owned();
    if let Some(count) = view::skipped_count(app.skipped().len()) {
        line.push_str(&count);
    }
    line
}

fn listed(app: &App) -> Vec<String> {
    app.cards().iter().map(|card| card.display_name()).collect()
}

fn fixtures() -> Vec<(String, Vec<u8>)> {
    let files: [(&str, &[u8]); 13] = [
        ("apple-grouped-labels.vcf", b"BEGIN:VCARD\r\nVERSION:3.0\r\nN:Garcia;Gabriela;;;\r\nFN:Gabriela Garcia\r\nitem1.TEL;type=CELL;type=VOICE;type=pref:+34 600 111 222\r\nitem1.X-ABLabel:_$!<Mobile>!$_\r\nitem2.TEL:+34 600 333 444\r\nitem2.X-ABLabel:Gym\r\nTEL;type=CELL;type=VOICE:+34 600 555 666\r\nEMAIL;type=INTERNET;type=HOME;type=pref:gabi@example.org\r\nitem3.EMAIL;type=INTERNET:gabi@work.example\r\nitem3.X-ABLabel:_$!<Work>!$_\r\nADR;type=HOME;type=pref:;;Calle Mayor 1;Madrid;;28013;Spain\r\nEND:VCARD\r\n"),
        ("apple-omit-year.vcf", b"BEGIN:VCARD\r\nVERSION:3.0\r\nN:Ortega;Omar;;;\r\nFN:Omar Ortega\r\nBDAY;X-APPLE-OMIT-YEAR=1604:1604-03-15\r\nEND:VCARD\r\n"),
        ("bad-invalid-utf8.vcf", b"BEGIN:VCARD\r\nFN:Bad \xff\r\nEND:VCARD\r\n"),
        ("bad-multiple-vcards.vcf", b"BEGIN:VCARD\r\nFN:First\r\nBEGIN:VC\r\n ARD\r\nFN:Second\r\nEND:VCARD\r\n"),
        ("bad-no-begin.vcf", b"VERSION:3.0\r\nFN:No Begin\r\nEND:VCARD\r\n"),
        ("bad-no-end.vcf", b"BEGIN:VCARD\r\nVERSION:3.0\r\nFN:No End\r\n"),
        ("company.vcf", b"BEGIN:VCARD\r\nVERSION:3.0\r\nN:;;;;\r\nFN:ACME Plumbing\r\nORG:ACME Plumbing;Emergency Repairs\r\nTEL;TYPE=work:+1 555 0100\r\nURL:https://acme.example\r\nURL:https://acme.example/emergency\r\nNOTE:Open 24/7.\\nAsk for Bob\\, not Rob.\r\nEND:VCARD\r\n"),
        ("escaped-adr.vcf", b"BEGIN:VCARD\r\nVERSION:3.0\r\nN:Meier;Max;;;\r\nFN:Max Meier\r\nADR;TYPE=work:PO Box 7;Building B;Hauptstr. 5\\, Hinterhaus\\nc/o Meier\\; 2. OG;Berlin;Berlin;10115;Germany\r\nEND:VCARD\r\n"),
        ("fn-custom.vcf", b"BEGIN:VCARD\r\nVERSION:3.0\r\nN:Doe;John;;;\r\nFN:Johnny D.\r\nBDAY:1985-07-04\r\nEND:VCARD\r\n"),
        ("folded-photo.vcf", b"BEGIN:VCARD\r\nVERSION:3.0\r\nN:Photo;Paula;;;\r\nFN:Paula Photo\r\nTEL;TYPE=CELL:+49 170 1234567\r\nPHOTO;ENCODING=b;TYPE=JPEG:/9j/4AAQSkZJRgABAQAAAQABAAD/2wBD\r\n AAAAAAAA/9k=\r\nEND:VCARD\r\n"),
        ("lf-endings.vcf", b"BEGIN:VCARD\nVERSION:3.0\nN:Linefeed;Lena;;;\nFN:Lena Linefeed\nEMAIL:lena@example.org\nTEL;VALUE=uri:tel:+33-1-23-45-67-89\nEND:VCARD\n"),
        ("utf8-fold-midchar.vcf", b"BEGIN:VCARD\r\nVERSION:3.0\r\nN:M\xc3\xbcller-L\xc3\xbcdenscheidt;J\xc3\xbcrgen;;;\r\nFN:J\xc3\xbcrgen M\xc3\xbcller-L\xc3\xbcdenscheidt \xc3\xa4\xc3\xb6\xc3\xbc \xc3\xa4\xc3\r\n \xb6\xc3\xbc\r\nEND:VCARD\r\n"),
        ("v4-yearless.vcf", b"BEGIN:VCARD\r\nVERSION:4.0\r\nN:Vogel;Vera;;;\r\nFN:Vera Vogel\r\nBDAY:--0315\r\nEND:VCARD\r\n"),
    ];
    files
        .iter()
        .map(|(name, bytes)| (format!("fixtures/{name}"), bytes.to_vec()))
        .collect()
}

fn open_fixtures() -> App {
    App::new(vdir::from_files("fixtures", &fixtures()))
}

fn select(app: &mut App, name: &str) {
    press(app, KeyCode::Char('g'));
    while app.selected_card().unwrap().display_name() != name {
        let before = app.selected();
        press(app, KeyCode::Char('j'));
        assert_ne!(before, app.selected(), "{name:?} not in list");
    }
}

fn assert_shows(text: &str, expected: &[&str]) {
    for want in expected {
        assert!(text.contains(want), "{want:?} missing from:\n{text}");
    }
}

fn open(test: &str) -> App {
    App::new(book(
        test,
        &[
            ("zed.vcf", &card("Adams;Zed;;;", "Zed Adams", "+1 555 0003", "zed@example.org")),
            ("bob.vcf", &card("Brown;Bob;;;", "Bob Brown", "+1 555 0004", "bob@example.org")),
            ("acme.vcf", &card(";;;;", "ACME Plumbing", "+1 555 0001", "info@acme.example")),
            ("anna.vcf", &card("Adams;Anna;;;", "Anna Adams", "+1 555 0002", "anna@example.org")),
        ],
    ))
}

#[test]
fn lists_cards_sorted_by_structured_name_then_display_name() {
    let app = open("sorted");
    assert_eq!(listed(&app), ["ACME Plumbing", "Anna Adams", "Zed Adams", "Bob Brown"]);
    assert!(!listed(&app).iter().any(|name| name.contains("not a card")));
}

#[test]
fn shows_details_of_the_selected_card() {
    let mut app = open("details");
    let first = detail(&app);
    assert!(
        first.contains("ACME Plumbing")
            && first.contains("+1 555 0001")
            && first.contains("info@acme.example")
    );

    press(&mut app, KeyCode::Char('j'));
    let second = detail(&app);
    assert!(
        second.contains("Anna Adams")
            && second.contains("+1 555 0002")
            && second.contains("anna@example.org")
    );
    assert!(!second.contains("ACME"));
}

#[test]
fn keys_move_the_selection() {
    let mut app = open("keys");
    let selected = |app: &App| app.selected_card().unwrap().display_name();

    press(&mut app, KeyCode::Char('k'));
    assert_eq!(selected(&app), "ACME Plumbing");
    press(&mut app, KeyCode::Down);
    press(&mut app, KeyCode::Char('j'));
    assert_eq!(selected(&app), "Zed Adams");
    press(&mut app, KeyCode::Up);
    assert_eq!(selected(&app), "Anna Adams");
    press(&mut app, KeyCode::Char('G'));
    assert_eq!(selected(&app), "Bob Brown");
    press(&mut app, KeyCode::Char('j'));
    assert_eq!(selected(&app), "Bob Brown");
    press(&mut app, KeyCode::Char('g'));
    assert_eq!(selected(&app), "ACME Plumbing");
}

#[test]
fn status_bar_shows_key_hints_and_q_quits() {
    let mut app = open("status");
    assert!(status(&app).contains("q quit"));

    assert!(!app.should_quit());
    press(&mut app, KeyCode::Char('q'));
    assert!(app.should_quit());
}

#[test]
fn empty_address_book_renders_without_selection() {
    let mut app = App::new(AddressBook::default());
    press(&mut app, KeyCode::Char('j'));
    press(&mut app, KeyCode::Char('G'));
    assert!(app.selected_card().is_none());
    assert_eq!(detail(&app), "");
}

#[test]
fn details_show_decoded_labels() {
    let mut app = open_fixtures();
    select(&mut app, "Gabriela Garcia");
    let detail = detail(&app);
    assert_shows(
        &detail,
        &[
            "Phone (Mobile)  +34 600 111 222",
            "Phone (Gym)  +34 600 333 444",
            "Phone (cell)  +34 600 555 666",
            "Email (home)  gabi@example.org",
            "Email (Work)  gabi@work.example",
            "Address (home)",
            "Calle Mayor 1",
            "28013 Madrid",
            "Spain",
        ],
    );
    assert!(!detail.contains("_$!<"), "{detail}");
}

#[test]
fn yearless_birthdays_show_without_1604() {
    let mut app = open_fixtures();
    for name in ["Omar Ortega", "Vera Vogel"] {
        select(&mut app, name);
        let detail = detail(&app);
        assert_shows(&detail, &["Birthday  15 March"]);
        assert!(!detail.contains("1604"), "{detail}");
    }
    select(&mut app, "Johnny D.");
    assert_shows(&detail(&app), &["Birthday  4 July 1985"]);
}

#[test]
fn details_show_organization_note_urls_and_address() {
    let mut app = open_fixtures();
    select(&mut app, "ACME Plumbing");
    assert_shows(
        &detail(&app),
        &[
            "Company  ACME Plumbing",
            "Department  Emergency Repairs",
            "URL  https://acme.example",
            "URL  https://acme.example/emergency",
            "Note",
            "Open 24/7.",
            "Ask for Bob, not Rob.",
        ],
    );

    select(&mut app, "Max Meier");
    let detail = detail(&app);
    assert_shows(
        &detail,
        &[
            "Address (work)",
            "Hauptstr. 5, Hinterhaus",
            "c/o Meier; 2. OG",
            "10115 Berlin",
            "Germany",
        ],
    );
    assert!(
        !detail.contains("PO Box") && !detail.contains("Building B"),
        "{detail}"
    );
}

#[test]
fn company_and_custom_display_name_cards_are_listed_under_display_name() {
    let list = listed(&open_fixtures()).join("\n");
    assert_shows(&list, &["ACME Plumbing", "Johnny D."]);
}

#[test]
fn bad_cards_are_skipped_and_counted_in_the_status_bar() {
    let app = open_fixtures();
    assert_eq!(app.cards().len(), 9);
    assert!(status(&app).contains("4 cards skipped"), "{}", status(&app));
    let list = listed(&app).join("\n");
    for name in ["No Begin", "No End", "First", "Second", "Bad"] {
        assert!(!list.contains(name), "{name}");
    }
}

#[test]
fn status_bar_has_no_skipped_count_when_all_cards_load() {
    assert!(!status(&open("none-skipped")).contains("skipped"));
}

#[test]
fn bang_lists_every_skipped_path_with_its_reason() {
    let mut app = open_fixtures();
    assert!(status(&app).contains("! list"));

    press(&mut app, KeyCode::Char('!'));
    assert_eq!(app.mode(), Mode::Prompt);
    let lines = view::skipped_lines(app.skipped());
    for (file, reason) in [
        ("bad-no-begin.vcf", "no BEGIN:VCARD"),
        ("bad-no-end.vcf", "no END:VCARD"),
        ("bad-multiple-vcards.vcf", "more than one VCARD"),
        ("bad-invalid-utf8.vcf", "invalid UTF-8"),
    ] {
        let row = lines
            .iter()
            .position(|line| *line == format!("fixtures/{file}"))
            .unwrap();
        assert!(lines[row + 1].contains(reason), "{}", lines.join("\n"));
    }

    press(&mut app, KeyCode::Esc);
    assert_eq!(app.mode(), Mode::Browse);
    assert!(!app.should_quit());
}

#[test]
fn bang_does_nothing_when_no_card_was_skipped() {
    let mut app = open("nothing-to-list");
    press(&mut app, KeyCode::Char('!'));
    assert_eq!(app.mode(), Mode::Browse);
    press(&mut app, KeyCode::Char('q'));
    assert!(app.should_quit());
}

#[test]
fn skipped_files_are_never_written() {
    let mut app = open_fixtures();
    for code in [
        KeyCode::Char('!'),
        KeyCode::Esc,
        KeyCode::Char('G'),
        KeyCode::Char('!'),
        KeyCode::Enter,
        KeyCode::Char('q'),
    ] {
        assert!(app.handle_key(Key::plain(code)).is_none());
    }
}

fn search_book(test: &str) -> App {
    App::new(book(
        test,
        &[
            (
                "anna.vcf",
                "BEGIN:VCARD\r\nN:Adams;Anna;;;\r\nFN:Anna Adams\r\nORG:Globex;Research\r\nEMAIL:anna@example.org\r\nTEL:+1 (555) 010-2030\r\nEND:VCARD\r\n",
            ),
            (
                "bob.vcf",
                "BEGIN:VCARD\r\nN:Brown;Bob;;;\r\nFN:Bob Brown\r\nORG:Initech\r\nEMAIL:bob@mail.test\r\nTEL:+49 170 1234567\r\nEND:VCARD\r\n",
            ),
            (
                "cara.vcf",
                "BEGIN:VCARD\r\nN:Chen;Cara;;;\r\nFN:Cara Chen\r\nEMAIL:cara@example.org\r\nTEL;VALUE=uri:tel:+33-1-23-45-67-89\r\nEND:VCARD\r\n",
            ),
        ],
    ))
}

fn type_text(app: &mut App, text: &str) {
    for c in text.chars() {
        press(app, KeyCode::Char(c));
    }
}

#[test]
fn slash_filters_the_list_live_by_display_name() {
    let mut app = search_book("search-name");
    press(&mut app, KeyCode::Char('/'));
    assert_eq!(app.mode(), Mode::Search);
    type_text(&mut app, "a");
    assert_eq!(listed(&app), ["Anna Adams", "Cara Chen"]);
    type_text(&mut app, "DA");
    assert_eq!(listed(&app), ["Anna Adams"]);
    assert_eq!(app.query(), "aDA");
    assert!(!listed(&app).contains(&"Cara Chen".to_owned()));
    assert!(detail(&app).contains("Anna Adams"));
}

#[test]
fn keys_typed_while_searching_are_part_of_the_query() {
    let mut app = search_book("search-literal");
    press(&mut app, KeyCode::Char('/'));
    type_text(&mut app, "qj?!/g");
    assert!(!app.should_quit());
    assert_eq!(app.mode(), Mode::Search);
    assert!(listed(&app).is_empty());
    assert_eq!(app.query(), "qj?!/g");
}

#[test]
fn enter_keeps_the_filter_and_esc_clears_it() {
    let mut app = search_book("search-keep-clear");
    press(&mut app, KeyCode::Char('/'));
    type_text(&mut app, "chen");
    press(&mut app, KeyCode::Enter);
    assert_eq!(app.mode(), Mode::Browse);
    assert_eq!(listed(&app), ["Cara Chen"]);
    assert_eq!(app.query(), "chen");
    press(&mut app, KeyCode::Char('j'));
    assert_eq!(app.selected_card().unwrap().display_name(), "Cara Chen");

    press(&mut app, KeyCode::Char('/'));
    press(&mut app, KeyCode::Backspace);
    assert_eq!(app.query(), "che");
    press(&mut app, KeyCode::Esc);
    assert_eq!(app.mode(), Mode::Browse);
    assert_eq!(app.query(), "");
    assert_eq!(listed(&app), ["Anna Adams", "Bob Brown", "Cara Chen"]);
    assert_eq!(app.selected_card().unwrap().display_name(), "Cara Chen");
}

#[test]
fn search_with_no_match_has_no_selection() {
    let mut app = search_book("search-empty");
    press(&mut app, KeyCode::Char('/'));
    type_text(&mut app, "zzz");
    press(&mut app, KeyCode::Enter);
    press(&mut app, KeyCode::Char('G'));
    assert!(app.selected_card().is_none());
    assert_eq!(detail(&app), "");
}

#[test]
fn phone_digits_find_a_card_by_its_number() {
    let mut app = search_book("search-phone");
    press(&mut app, KeyCode::Char('/'));
    type_text(&mut app, "(170) 1234");
    assert_eq!(listed(&app), ["Bob Brown"]);
    press(&mut app, KeyCode::Esc);
    type_text(&mut app, "/");
    type_text(&mut app, "globex");
    assert_eq!(listed(&app), ["Anna Adams"]);
}

#[test]
fn saving_an_edit_asks_for_the_file_and_keeps_the_rest_of_the_bundle() {
    let bundle = "BEGIN:VCARD\r\nFN:Ann\r\nEND:VCARD\r\nBEGIN:VCARD\r\nFN:Bea\r\nEND:VCARD\r\n";
    let mut app = App::new(book("bundle", &[("all.vcf", bundle)]));
    press(&mut app, KeyCode::Char('j'));
    assert_eq!(app.selected_card().unwrap().display_name(), "Bea");
    press(&mut app, KeyCode::Enter);
    assert_eq!(app.mode(), Mode::Edit);
    for _ in 0..5 {
        press(&mut app, KeyCode::Tab);
    }
    press(&mut app, KeyCode::Char('x'));
    let request = app
        .handle_key(Key { code: KeyCode::Char('s'), ctrl: true, alt: false })
        .unwrap();
    assert_eq!(request.path, "bundle/all.vcf");
    assert_eq!(request.loaded.as_deref(), Some(bundle.as_bytes()));
    assert_eq!(
        String::from_utf8(request.bytes).unwrap(),
        "BEGIN:VCARD\r\nFN:Ann\r\nEND:VCARD\r\nBEGIN:VCARD\r\nFN:Beax\r\nEND:VCARD\r\n"
    );
    app.finish_save(Ok(()));
    assert_eq!(app.mode(), Mode::Browse);
    assert_eq!(listed(&app), ["Ann", "Beax"]);
    assert_eq!(app.selected_card().unwrap().display_name(), "Beax");
}

#[test]
fn a_failed_save_keeps_the_form_open_with_the_reason() {
    let mut app = open("save-failed");
    press(&mut app, KeyCode::Char('e'));
    for _ in 0..5 {
        press(&mut app, KeyCode::Tab);
    }
    press(&mut app, KeyCode::Backspace);
    assert!(app
        .handle_key(Key { code: KeyCode::Char('s'), ctrl: true, alt: false })
        .is_some());
    app.finish_save(Err("disk full".into()));
    assert_eq!(app.mode(), Mode::Edit);
    assert_eq!(app.error(), Some("save failed: disk full"));
    press(&mut app, KeyCode::Esc);
    assert_eq!(app.mode(), Mode::Discard);
    press(&mut app, KeyCode::Char('y'));
    assert_eq!(app.mode(), Mode::Browse);
    assert_eq!(app.selected_card().unwrap().display_name(), "ACME Plumbing");
}

#[test]
fn editing_a_name_part_keeps_a_linked_display_name_in_step() {
    let mut app = open("linked");
    press(&mut app, KeyCode::Char('j'));
    press(&mut app, KeyCode::Char('e'));
    assert!(app.form().unwrap().is_linked());
    press(&mut app, KeyCode::Tab);
    press(&mut app, KeyCode::Char('e'));
    let form = app.form().unwrap();
    assert_eq!(form.inputs()[1].text(), "Annae");
    assert_eq!(form.inputs()[5].text(), "Annae Adams");
    let card: &Card = app.selected_card().unwrap();
    assert_eq!(card.display_name(), "Anna Adams");
}

#[test]
fn search_matches_names_fuzzily_best_first() {
    let mut app = App::new(book(
        "fuzzy",
        &[
            ("john.vcf", &card("Smith;John;;;", "John Smith", "+1 555 0100", "js@example.org")),
            ("jo.vcf", &card("Hansen;Jo;;;", "Jo Hansen", "+1 555 0101", "jo@example.org")),
        ],
    ));
    press(&mut app, KeyCode::Char('/'));
    type_text(&mut app, "jhn smth");
    assert_eq!(listed(&app), ["John Smith"]);
    press(&mut app, KeyCode::Esc);
    press(&mut app, KeyCode::Char('/'));
    type_text(&mut app, "jo");
    assert_eq!(listed(&app), ["Jo Hansen", "John Smith"]);
}

fn reload_book(anna: bool) -> AddressBook {
    reload_book_with(anna, false)
}

fn reload_book_with(anna: bool, dan: bool) -> AddressBook {
    let mut cards = vec![("bob.vcf", card("Brown;Bob;;;", "Bob Brown", "+1 555 0200", "bob@mail.test"))];
    if anna {
        cards.push(("anna.vcf", card("Adams;Anna;;;", "Anna Adams", "+1 555 0100", "anna@example.org")));
    }
    if dan {
        cards.push(("dan.vcf", card("Doe;Dan;;;", "Dan Doe", "+1 555 0400", "dan@example.org")));
    }
    cards.push(("cara.vcf", card("Chen;Cara;;;", "Cara Chen", "+1 555 0300", "cara@example.org")));
    let refs: Vec<(&str, &str)> = cards.iter().map(|(f, b)| (*f, b.as_str())).collect();
    book("reload", &refs)
}

#[test]
fn a_change_on_disk_reloads_keeping_the_selection_and_the_filter() {
    let mut app = App::new(reload_book(true));
    press(&mut app, KeyCode::Char('/'));
    type_text(&mut app, "c");
    press(&mut app, KeyCode::Enter);
    let shown = listed(&app);
    select(&mut app, "Cara Chen");
    app.disk_changed(reload_book_with(true, true));
    assert_eq!(app.status(), Some("reloaded"));
    assert_eq!(app.query(), "c");
    assert_eq!(listed(&app), shown);
    assert_eq!(app.selected_card().unwrap().display_name(), "Cara Chen");
    press(&mut app, KeyCode::Char('j'));
    assert_eq!(app.status(), None);
}

#[test]
fn a_selected_card_removed_on_disk_selects_the_next_one() {
    let mut app = App::new(reload_book(true));
    select(&mut app, "Anna Adams");
    app.disk_changed(reload_book(false));
    assert_eq!(app.status(), Some("Anna Adams removed on disk"));
    assert_eq!(listed(&app), ["Bob Brown", "Cara Chen"]);
    assert_eq!(app.selected_card().unwrap().display_name(), "Bob Brown");
}

#[test]
fn a_change_on_disk_waits_while_a_form_is_open() {
    let mut app = App::new(reload_book(true));
    select(&mut app, "Anna Adams");
    press(&mut app, KeyCode::Char('e'));
    app.disk_changed(reload_book(false));
    assert_eq!(app.mode(), Mode::Edit);
    assert_eq!(listed(&app), ["Anna Adams", "Bob Brown", "Cara Chen"]);
    assert!(!app.wants_reload());
    press(&mut app, KeyCode::Esc);
    assert_eq!(app.mode(), Mode::Browse);
    assert!(app.wants_reload());
    app.disk_changed(reload_book(false));
    assert!(!app.wants_reload());
    assert_eq!(listed(&app), ["Bob Brown", "Cara Chen"]);
}

#[test]
fn a_book_read_again_unchanged_changes_nothing() {
    let mut app = App::new(reload_book(true));
    select(&mut app, "Bob Brown");
    app.disk_changed(reload_book(true));
    assert_eq!(app.status(), None);
    assert_eq!(listed(&app), ["Anna Adams", "Bob Brown", "Cara Chen"]);
    assert_eq!(app.selected_card().unwrap().display_name(), "Bob Brown");
}
