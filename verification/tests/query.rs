use kartei::query::lines;
use kartei::vdir::from_files;

#[test]
fn lines_list_every_address_of_matching_cards() {
    let files = vec![
        (
            "q/anna.vcf".to_owned(),
            b"BEGIN:VCARD\r\nN:Adams;Anna;;;\r\nFN:Anna Adams\r\nEMAIL;TYPE=work:anna@work.example\r\nEMAIL:anna@home.example\r\nEND:VCARD\r\n".to_vec(),
        ),
        (
            "q/bob.vcf".to_owned(),
            b"BEGIN:VCARD\r\nN:Brown;Bob;;;\r\nFN:Bob\\nBrown\r\nEMAIL;TYPE=home:bob@example.org\r\nEND:VCARD\r\n".to_vec(),
        ),
    ];
    let book = from_files("q", &files);
    assert_eq!(
        lines(&book, ""),
        [
            "anna@work.example\tAnna Adams\twork",
            "anna@home.example\tAnna Adams\t",
            "bob@example.org\tBob Brown\thome",
        ]
    );
    assert_eq!(lines(&book, "bob"), ["bob@example.org\tBob Brown\thome"]);
    assert!(lines(&book, "zzz").is_empty());
}
