use medit::buffer::{collect_bytes, Buffer};
use medit::indent::Indenter;
use medit::insert::indent_new_line;
use medit::selection::{Selection, Selections};

#[test]
fn level_inside_list_is_one() {
    let i = Indenter::new();
    assert_eq!(i.level_for("mshell", b"[\n", 2), 1);
}

#[test]
fn level_after_closed_list_is_zero() {
    let i = Indenter::new();
    assert_eq!(i.level_for("mshell", b"[\n1\n]\n", 6), 0);
}

#[test]
fn level_nested_unclosed_lists() {
    let i = Indenter::new();
    assert_eq!(i.level_for("mshell", b"[\n[\n", 4), 2);
}

#[test]
fn level_inside_quotation_two_char_token() {
    let i = Indenter::new();
    assert_eq!(i.level_for("mshell", b"[|\n", 3), 1);
}

#[test]
fn level_quotation_close_dedents() {
    let i = Indenter::new();
    assert_eq!(i.level_for("mshell", b"[|\n1\n|]\n", 8), 0);
}

#[test]
fn unknown_lang_returns_zero() {
    let i = Indenter::new();
    assert_eq!(i.level_for("go", b"[\n", 2), 0);
}

#[test]
fn indent_for_returns_spaces() {
    let i = Indenter::new();
    assert_eq!(i.indent_for("mshell", b"[\n", 2), "    ");
}

#[test]
fn closers_without_an_opener_close_nothing() {
    let i = Indenter::new();
    assert_eq!(i.level_for("mshell", b"]\n[", 3), 1);
    assert_eq!(i.level_for("mshell", b")}[(", 4), 2);
    // Only what stands before the position counts.
    assert_eq!(i.level_for("mshell", b"[[", 1), 1);
    assert_eq!(i.level_for("mshell", b"[", 99), 1);
}

#[test]
fn a_new_line_is_indented() {
    let open = |text: &str, heads: &[usize]| {
        let list = heads.iter().map(|h| Selection { anchor: *h, head: *h, desired_col: 1 });
        let mut sels = Selections::new();
        sels.replace(list.collect(), 0);
        (Buffer::from_bytes(text.as_bytes().to_vec()), sels)
    };
    let (mut b, mut sels) = open("[ (\n) ]", &[4]);
    indent_new_line(&mut b, &mut sels, Some("mshell"), &Indenter::new());
    assert_eq!(collect_bytes(&b), b"[ (\n        ) ]");
    assert_eq!(sels.primary().head, 12);
    // Not without a language that has rules, nor at several cursors.
    let (mut b, mut sels) = open("[\n]", &[2]);
    indent_new_line(&mut b, &mut sels, Some("go"), &Indenter::new());
    indent_new_line(&mut b, &mut sels, None, &Indenter::new());
    assert_eq!((b.version(), sels.primary().head), (0, 2));
    let (mut b, mut sels) = open("[\n]", &[2, 1]);
    indent_new_line(&mut b, &mut sels, Some("mshell"), &Indenter::new());
    assert_eq!(b.version(), 0);
}
