use ssb_parser::tags::{EscapedText, TagsIterator};

#[test]
fn tag_geometry_iter() {
    let text = EscapedText::new("[tag1][tag2=[inner_tag]]geometry1\\[geometry1_continue\\\\[tag3]geometry2\\n[tag4");
    let mut iter = text.iter();
    assert_eq!(iter.next(), Some((true, "tag1")));
    assert_eq!(iter.next(), Some((true, "tag2=[inner_tag]")));
    assert_eq!(iter.next(), Some((false, "geometry1[geometry1_continue\\")));
    assert_eq!(iter.next(), Some((true, "tag3")));
    assert_eq!(iter.next(), Some((false, "geometry2\n")));
    assert_eq!(iter.next(), Some((true, "tag4")));
    assert_eq!(iter.next(), None);
}

#[test]
fn tags_iter() {
    let mut iter = TagsIterator::new("mode=points;reset;animate=0,-500,[position=200,100.5];color=ff00ff;mask-clear");
    assert_eq!(iter.next(), Some(("mode", Some("points"))));
    assert_eq!(iter.next(), Some(("reset", None)));
    assert_eq!(iter.next(), Some(("animate", Some("0,-500,[position=200,100.5]"))));
    assert_eq!(iter.next(), Some(("color", Some("ff00ff"))));
    assert_eq!(iter.next(), Some(("mask-clear", None)));
    assert_eq!(iter.next(), None);
}

#[test]
fn tag_geometry_iter_edges() {
    let empty = EscapedText::new("");
    assert_eq!(empty.iter().next(), None);
    let text = EscapedText::new("a]b[]c\\]");
    let mut iter = text.iter();
    assert_eq!(iter.next(), Some((false, "a]b")));
    assert_eq!(iter.next(), Some((true, "")));
    assert_eq!(iter.next(), Some((false, "c]")));
    assert_eq!(iter.next(), None);
}

#[test]
fn tag_geometry_iter_unicode() {
    let text = EscapedText::new("\u{e9}[\u{1F600}]\u{4e2d}");
    let mut iter = text.iter();
    assert_eq!(iter.next(), Some((false, "\u{e9}")));
    assert_eq!(iter.next(), Some((true, "\u{1F600}")));
    assert_eq!(iter.next(), Some((false, "\u{4e2d}")));
    assert_eq!(iter.next(), None);
}

#[test]
fn tags_iter_edges() {
    let mut iter = TagsIterator::new("a=b=c;;x");
    assert_eq!(iter.next(), Some(("a", Some("b=c"))));
    assert_eq!(iter.next(), Some(("", None)));
    assert_eq!(iter.next(), Some(("x", None)));
    assert_eq!(iter.next(), None);
    let mut iter = TagsIterator::new("t;");
    assert_eq!(iter.next(), Some(("t", None)));
    assert_eq!(iter.next(), None);
}

#[test]
fn tags_iter_counts_bytes_as_characters() {
    // The search for the second separator starts as many characters in as the text before
    // it has bytes, so it passes over the separator after "a".
    let mut iter = TagsIterator::new("\u{e9}\u{e9};a;b");
    assert_eq!(iter.next(), Some(("\u{e9}\u{e9}", None)));
    assert_eq!(iter.next(), Some(("a;b", None)));
    assert_eq!(iter.next(), None);
}

#[test]
fn tag_geometry_chunks_rejoin() {
    let source = "a[b[c]d]e[f";
    let text = EscapedText::new(source);
    let mut iter = text.iter();
    let mut rejoined = String::new();
    while let Some((is_tag, chunk)) = iter.next() {
        if is_tag {
            rejoined.push('[');
            rejoined.push_str(chunk);
            if rejoined.len() < source.len() {
                rejoined.push(']');
            }
        } else {
            rejoined.push_str(chunk);
        }
    }
    assert_eq!(rejoined, source);
}

#[test]
fn tags_rejoin() {
    let list = "a=1;b;c=[x;y]=2;;d=";
    let mut iter = TagsIterator::new(list);
    let mut parts = Vec::new();
    while let Some((name, value)) = iter.next() {
        match value {
            Some(value) => parts.push(format!("{}={}", name, value)),
            None => parts.push(name.to_owned()),
        }
    }
    assert_eq!(parts.join(";"), list);
}

#[test]
fn plain_text_is_unchanged() {
    let text = EscapedText::new("x[y]z");
    let mut iter = text.iter();
    assert_eq!(iter.next(), Some((false, "x")));
    assert_eq!(iter.next(), Some((true, "y")));
    assert_eq!(iter.next(), Some((false, "z")));
    assert_eq!(iter.next(), None);
}

#[test]
fn escapes_read_left_to_right() {
    // `\\[` is a backslash then a tag start; `\\\[` is a backslash then an escaped bracket.
    let text = EscapedText::new("a\\\\[t]b\\\\\\[c\\]d\\x");
    let mut iter = text.iter();
    assert_eq!(iter.next(), Some((false, "a\\")));
    assert_eq!(iter.next(), Some((true, "t")));
    assert_eq!(iter.next(), Some((false, "b\\[c]d\\x")));
    assert_eq!(iter.next(), None);
}

#[test]
fn nested_tags_stay_whole() {
    let text = EscapedText::new("[a[b[c]]d]e");
    let mut iter = text.iter();
    assert_eq!(iter.next(), Some((true, "a[b[c]]d")));
    assert_eq!(iter.next(), Some((false, "e")));
    assert_eq!(iter.next(), None);
}

#[test]
fn ascii_tags_split_at_top_level_separators() {
    let mut iter = TagsIterator::new("x=[a;b];]y;z=;");
    assert_eq!(iter.next(), Some(("x", Some("[a;b]"))));
    assert_eq!(iter.next(), Some(("]y", None)));
    assert_eq!(iter.next(), Some(("z", Some(""))));
    assert_eq!(iter.next(), None);
}
