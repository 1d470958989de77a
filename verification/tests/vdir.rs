use kartei::card::Defect;
use kartei::vdir::{append, conflict, eol, from_files, parse, split, Conflict};

#[test]
fn split_cuts_before_each_card_but_the_first() {
    let bytes = b"X-PRE:1\r\nBEGIN:VCARD\r\nFN:a\r\nEND:VCARD\r\nbegin:vcard \r\nFN:b\r\nEND:VCARD";
    let chunks = split(bytes);
    assert_eq!(
        chunks,
        [
            b"X-PRE:1\r\nBEGIN:VCARD\r\nFN:a\r\nEND:VCARD\r\n".to_vec(),
            b"begin:vcard \r\nFN:b\r\nEND:VCARD".to_vec(),
        ]
    );
    assert_eq!(chunks.concat(), bytes.to_vec());
    assert!(split(b"").is_empty());
    assert_eq!(split(b"no card at all\n"), [b"no card at all\n".to_vec()]);
}

#[test]
fn eol_follows_the_first_line() {
    assert_eq!(eol(b"BEGIN:VCARD\nEND:VCARD\r\n"), "\n");
    assert_eq!(eol(b"BEGIN:VCARD\r\nEND:VCARD\n"), "\r\n");
    assert_eq!(eol(b"no line feed"), "\r\n");
    assert_eq!(eol(b"\nBEGIN:VCARD\n"), "\r\n");
}

#[test]
fn append_ends_the_last_card_first() {
    let chunks = vec![b"BEGIN:VCARD\nEND:VCARD".to_vec()];
    assert_eq!(
        append(chunks, b"NEW".to_vec()),
        [b"BEGIN:VCARD\nEND:VCARD\n".to_vec(), b"NEW".to_vec()]
    );
    let chunks = vec![b"BEGIN:VCARD\r\nEND:VCARD\r\n".to_vec()];
    assert_eq!(
        append(chunks, b"NEW".to_vec()),
        [b"BEGIN:VCARD\r\nEND:VCARD\r\n".to_vec(), b"NEW".to_vec()]
    );
    assert_eq!(append(Vec::new(), b"NEW".to_vec()), [b"NEW".to_vec()]);
}

#[test]
fn conflicts_compare_the_disk_with_what_was_loaded() {
    assert_eq!(conflict(None, b"a"), Some(Conflict::Deleted));
    assert_eq!(conflict(Some(b"a"), b"a"), None);
    assert_eq!(conflict(Some(b"b"), b"a"), Some(Conflict::Changed));
}

#[test]
fn parse_locates_cards_and_numbers_skipped_chunks_of_a_bundle() {
    let chunks = vec![
        b"BEGIN:VCARD\r\nFN:a\r\nEND:VCARD\r\n".to_vec(),
        b"BEGIN:VCARD\r\nFN:b\r\n".to_vec(),
        b"BEGIN:VCARD\r\nFN:c\r\nEND:VCARD\r\n".to_vec(),
    ];
    let (cards, skipped) = parse("book/all.vcf", &chunks);
    let located: Vec<(String, usize, String)> = cards
        .iter()
        .map(|((path, pos), card)| (path.clone(), *pos, card.display_name()))
        .collect();
    assert_eq!(
        located,
        [
            ("book/all.vcf".to_owned(), 0, "a".to_owned()),
            ("book/all.vcf".to_owned(), 2, "c".to_owned()),
        ]
    );
    assert_eq!(skipped.len(), 1);
    assert_eq!(skipped[0].position, Some(2));
    assert_eq!(skipped[0].defect, Defect::NoEnd);
    let (_, single) = parse("one.vcf", &[b"FN:x\r\n".to_vec()]);
    assert_eq!(single[0].position, None);
    assert_eq!(single[0].defect, Defect::NoBegin);
}

#[test]
fn loading_sorts_what_was_skipped_by_path() {
    let files = vec![
        ("b/z.vcf".to_owned(), b"FN:z\r\n".to_vec()),
        ("b/a.vcf".to_owned(), b"BEGIN:VCARD\r\nFN:a\r\nEND:VCARD\r\n".to_vec()),
        ("b/m.vcf".to_owned(), b"BEGIN:VCARD\r\nFN:m\r\n".to_vec()),
    ];
    let book = from_files("b", &files);
    assert_eq!(book.path, "b");
    assert_eq!(book.cards.len(), 1);
    assert_eq!(book.files.len(), 3);
    let paths: Vec<&str> = book.skipped.iter().map(|s| s.path.as_str()).collect();
    assert_eq!(paths, ["b/m.vcf", "b/z.vcf"]);
}
