use notas::codec::{create_markdown, parse_frontmatter};
use notas::note::Note;

fn sample_note() -> Note {
    Note {
        id: String::from("a.md"),
        title: String::from("Shopping"),
        content: String::from("Milk, eggs"),
        path: Some(String::from("/notes/a.md")),
        created_at: 100,
        updated_at: 200,
        tags: vec![String::from("home"), String::from("food")],
        color: Some(String::from("red")),
    }
}

#[test]
fn encode_emits_full_header_in_fixed_order() {
    let md = create_markdown(&sample_note());
    assert_eq!(
        md,
        "---\ntitle: Shopping\ncreated: 100\nmodified: 200\ntags: [home, food]\ncolor: red\n---\n\nMilk, eggs"
    );
}

#[test]
fn encode_omits_color_line_when_absent() {
    let mut n = sample_note();
    n.color = None;
    n.tags = vec![];
    let md = create_markdown(&n);
    assert_eq!(
        md,
        "---\ntitle: Shopping\ncreated: 100\nmodified: 200\ntags: []\n---\n\nMilk, eggs"
    );
}

#[test]
fn decode_reads_all_recognized_keys() {
    let md = "---\ntitle: Shopping\ncreated: 100\nmodified: 200\ntags: [home, food]\ncolor: red\n---\n\nMilk, eggs";
    let (fm, body) = parse_frontmatter(md).expect("document has a header");
    assert_eq!(fm.title, "Shopping");
    assert_eq!(fm.created, 100);
    assert_eq!(fm.modified, 200);
    assert_eq!(fm.tags, vec![String::from("home"), String::from("food")]);
    assert_eq!(fm.color, Some(String::from("red")));
    assert_eq!(body, "Milk, eggs");
}

#[test]
fn decode_without_leading_delimiter_is_no_header() {
    assert!(parse_frontmatter("just some text").is_none());
    assert!(parse_frontmatter("").is_none());
    assert!(parse_frontmatter("title: x\n---\nbody").is_none());
}

#[test]
fn decode_with_single_delimiter_is_no_header() {
    assert!(parse_frontmatter("---").is_none());
    assert!(parse_frontmatter("---\ntitle: x\nbody with no close").is_none());
    assert!(parse_frontmatter("-----").is_none());
}

#[test]
fn decode_ignores_unknown_keys_and_lines_without_separator() {
    let md = "---\ntitle: T\nwhatever\nfancy: yes\n---\n\nb";
    let (fm, body) = parse_frontmatter(md).expect("document has a header");
    assert_eq!(fm.title, "T");
    assert_eq!(fm.created, 0);
    assert_eq!(fm.modified, 0);
    assert!(fm.tags.is_empty());
    assert_eq!(fm.color, None);
    assert_eq!(body, "b");
}

#[test]
fn decode_malformed_timestamps_fall_back_to_zero() {
    let md = "---\ncreated: yesterday\nmodified: 99999999999999999999999999\n---\n\nb";
    let (fm, _) = parse_frontmatter(md).expect("document has a header");
    assert_eq!(fm.created, 0);
    assert_eq!(fm.modified, 0);
}

#[test]
fn decode_tag_lists() {
    let (fm, _) = parse_frontmatter("---\ntags: []\n---\n\nb").unwrap();
    assert!(fm.tags.is_empty());
    let (fm, _) = parse_frontmatter("---\ntags: [one]\n---\n\nb").unwrap();
    assert_eq!(fm.tags, vec![String::from("one")]);
    let (fm, _) = parse_frontmatter("---\ntags: [ spaced ,  b ]\n---\n\nb").unwrap();
    assert_eq!(fm.tags, vec![String::from("spaced"), String::from("b")]);
    // an unbracketed value decodes to no tags
    let (fm, _) = parse_frontmatter("---\ntags: one, two\n---\n\nb").unwrap();
    assert!(fm.tags.is_empty());
}

#[test]
fn later_header_lines_win() {
    let (fm, _) = parse_frontmatter("---\ntitle: first\ntitle: second\n---\n\nb").unwrap();
    assert_eq!(fm.title, "second");
}

#[test]
fn encode_decode_encode_reproduces_the_document() {
    let n = sample_note();
    let md = create_markdown(&n);
    let (fm, body) = parse_frontmatter(&md).expect("own document has a header");
    let rebuilt = Note {
        id: String::from("other-id.md"),
        title: fm.title,
        content: body,
        path: None,
        created_at: fm.created,
        updated_at: fm.modified,
        tags: fm.tags,
        color: fm.color,
    };
    assert_eq!(create_markdown(&rebuilt), md);
}

#[test]
fn body_keeps_interior_whitespace_and_later_delimiters() {
    let md = "---\ntitle: T\n---\n\nline one\n\nline two\n--- not a header";
    let (_, body) = parse_frontmatter(md).unwrap();
    assert_eq!(body, "line one\n\nline two\n--- not a header");
}
