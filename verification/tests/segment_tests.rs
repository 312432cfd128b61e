use nested_code_parser::NestedSegment;
use nested_code_parser::NestedSegmentIterator;
use nested_code_parser::NestedSegmentRef;
use nested_code_parser::SegmentIdSource;

#[test]
fn test_nested_segment_creation() {
    let code_segment: NestedSegment = NestedSegment::new_code("test", "<test>", vec![], "</test>");
    let content_segment: NestedSegment = NestedSegment::new_contents("Hello");
    let whitespace_segment: NestedSegment = NestedSegment::new_contents("   ");

    assert!(matches!(code_segment, NestedSegment::Code(_, _)));
    assert!(matches!(content_segment, NestedSegment::Contents(_, _)));
    assert!(matches!(whitespace_segment, NestedSegment::WhiteSpace(_, _)));
}

#[test]
fn test_nested_segment_sub_segments() {
    let inner: NestedSegment = NestedSegment::new_contents("inner");
    let outer: NestedSegment = NestedSegment::new_code("outer", "<outer>", vec![inner.clone()], "</outer>");

    if let NestedSegment::Code(_, code) = &outer {
        assert_eq!(code.sub_segments.len(), 1);
        assert_eq!(code.sub_segments[0], inner);
    } else {
        panic!("Expected Code variant");
    }
}

#[test]
fn test_nested_segment_flattening() {
    let inner: NestedSegment = NestedSegment::new_contents("inner");
    let outer: NestedSegment = NestedSegment::new_code("outer", "<outer>", vec![inner.clone()], "</outer>");
    let flat: Vec<(usize, NestedSegment)> = outer.to_flat();

    assert_eq!(flat.len(), 2);
    assert!(matches!(flat[0].1, NestedSegment::Code(_, _)));
    assert!(matches!(flat[1].1, NestedSegment::Contents(_, _)));
}

#[test]
fn test_nested_segment_iterator() {
    let inner: NestedSegment = NestedSegment::new_contents("inner");
    let outer: NestedSegment = NestedSegment::new_code("outer", "<outer>", vec![inner.clone()], "</outer>");
    let mut iter: NestedSegmentIterator<'_> = outer.iter();

    assert_eq!(iter.next().unwrap().name(), "outer");
    assert!(iter.next().unwrap().is_contents());
    assert!(iter.next().is_none());
}

#[test]
fn test_nested_segment_ref() {
    let inner: NestedSegment = NestedSegment::new_contents("inner");
    let outer: NestedSegment = NestedSegment::new_code("outer", "<outer>", vec![inner.clone()], "</outer>");
    let seg_ref: NestedSegmentRef<'_> = NestedSegmentRef::new(&outer, vec![]);

    assert!(seg_ref.get().is_some());
    assert_eq!(seg_ref.get().unwrap().name(), "outer");
}

#[test]
fn test_nested_segment_ref_child() {
    let inner: NestedSegment = NestedSegment::new_contents("inner");
    let outer: NestedSegment = NestedSegment::new_code("outer", "<outer>", vec![inner.clone()], "</outer>");
    let seg_ref: NestedSegmentRef<'_> = NestedSegmentRef::new(&outer, vec![]);

    let child_ref: NestedSegmentRef<'_> = seg_ref.child().unwrap();
    assert!(child_ref.get().unwrap().is_contents());
}

#[test]
fn test_segment_text_round_trip() {
    let inner: NestedSegment = NestedSegment::new_contents("body");
    let blank: NestedSegment = NestedSegment::new_contents("  ");
    let outer: NestedSegment = NestedSegment::new_code("outer", "<o>", vec![inner, blank], "</o>");
    assert_eq!(outer.to_string(), "<o>body  </o>");
    assert_eq!(outer.sub_contents_to_string(), "body  ");
    assert!(!outer.is_empty());
    assert!(NestedSegment::new_contents("").is_empty());
}

#[test]
fn test_flat_and_inflate_round_trip_by_hand() {
    let leaf_a: NestedSegment = NestedSegment::new_contents("a");
    let leaf_b: NestedSegment = NestedSegment::new_contents(" ");
    let mid: NestedSegment = NestedSegment::new_code("mid", "(", vec![leaf_a], ")");
    let top: NestedSegment = NestedSegment::new_code("top", "[", vec![mid, leaf_b], "]");
    let copy: NestedSegment = top.clone();
    let flat: Vec<(usize, NestedSegment)> = top.to_flat();
    let depths: Vec<usize> = flat.iter().map(|(d, _)| *d).collect();
    assert_eq!(depths, vec![0, 1, 2, 1]);
    let rebuilt: NestedSegment = NestedSegment::from_flat(flat).unwrap();
    assert_eq!(rebuilt, copy);
}

#[test]
fn test_from_flat_refuses_wrong_start() {
    let leaf: NestedSegment = NestedSegment::new_contents("a");
    assert!(NestedSegment::from_flat(vec![(1, leaf)]).is_none());
    assert!(NestedSegment::from_flat(vec![]).is_none());
}

#[test]
fn test_remove_whitespace() {
    let blank: NestedSegment = NestedSegment::new_contents(" \t");
    let word: NestedSegment = NestedSegment::new_contents("word");
    let inner: NestedSegment = NestedSegment::new_code("in", "<", vec![blank.clone()], ">");
    let mut top: NestedSegment = NestedSegment::new_code("top", "{", vec![blank, word, inner], "}");
    top.remove_whitespace();
    let children = top.sub_segments();
    assert_eq!(children.len(), 2);
    assert_eq!(children[0].name(), "contents");
    assert_eq!(children[1].name(), "in");
    assert_eq!(children[1].sub_segments().len(), 0);
}

#[test]
fn test_find_path() {
    let target: NestedSegment = NestedSegment::new_contents("needle");
    let hay: NestedSegment = NestedSegment::new_contents("hay");
    let mid: NestedSegment = NestedSegment::new_code("mid", "(", vec![hay, target], ")");
    let top: NestedSegment = NestedSegment::new_code("top", "[", vec![mid], "]");
    let path: Vec<usize> = top.find(|s: &NestedSegment| s.to_string() == "needle").unwrap();
    assert_eq!(path, vec![0, 1]);
    assert!(top.find(|s: &NestedSegment| s.to_string() == "absent").is_none());
}

#[test]
fn test_flat_views() {
    let a: NestedSegment = NestedSegment::new_contents("a");
    let mid: NestedSegment = NestedSegment::new_code("mid", "(", vec![a], ")");
    let top: NestedSegment = NestedSegment::new_code("top", "[", vec![mid], "]");
    let all: Vec<(usize, &NestedSegment)> = top.flat();
    let names: Vec<&str> = all.iter().map(|(_, s)| s.name()).collect();
    assert_eq!(names, vec!["top", "mid", "contents"]);
    let codes = top.flat_code();
    assert_eq!(codes.len(), 2);
    assert_eq!(codes[0].1.name, "top");
    assert_eq!(codes[1].1.name, "mid");
    let deep = top.flat_filtered(|d: usize, _s: &NestedSegment| d >= 1);
    assert_eq!(deep.len(), 2);
    assert_eq!(top.sub_segment_at_index(2).unwrap().name(), "contents");
    assert!(top.sub_segment_at_index(3).is_none());
}

#[test]
fn test_sibling_navigation() {
    let mut ids: SegmentIdSource = SegmentIdSource::starting_at(0);
    let a: NestedSegment = ids.code("a", "1", vec![], "");
    let b: NestedSegment = ids.code("b", "2", vec![], "");
    let top: NestedSegment = ids.code("top", "", vec![a, b], "");
    let root_ref: NestedSegmentRef<'_> = NestedSegmentRef::new(&top, vec![]);
    let first = root_ref.child_by_index(0).unwrap();
    assert_eq!(first.get().unwrap().name(), "a");
    assert!(root_ref.parent().is_none());
    assert!(first.parent().is_some());
    assert!(first.previous_sibling().is_none());
    let second = first.next_sibling().unwrap();
    assert_eq!(second.get().unwrap().name(), "b");
    assert_eq!(root_ref.child_by_index(1).unwrap().get().unwrap().name(), "b");
}

#[test]
fn test_id_source_builds_navigable_trees() {
    let mut ids: SegmentIdSource = SegmentIdSource::starting_at(7);
    let one: NestedSegment = ids.contents("one");
    let two: NestedSegment = ids.contents("two");
    let three: NestedSegment = ids.contents("three");
    let top: NestedSegment = ids.code("top", "<", vec![one, two, three], ">");
    let root_ref: NestedSegmentRef<'_> = NestedSegmentRef::new(&top, vec![]);
    assert_eq!(root_ref.child_by_index(0).unwrap().get().unwrap().to_string(), "one");
    assert_eq!(root_ref.child_by_index(1).unwrap().get().unwrap().to_string(), "two");
    assert_eq!(root_ref.child_by_index(2).unwrap().get().unwrap().to_string(), "three");
    let middle = root_ref.child_by_index(1).unwrap();
    assert_eq!(middle.previous_sibling().unwrap().get().unwrap().to_string(), "one");
    assert_eq!(middle.next_sibling().unwrap().get().unwrap().to_string(), "three");

    let mut walk = top.iter();
    let mut seen: Vec<String> = Vec::new();
    while let Some(node) = walk.next() {
        seen.push(node.to_string());
    }
    assert_eq!(seen, vec!["<onetwothree>", "one", "two", "three"]);
}

#[test]
fn test_sub_segments_at_depth() {
    let a: NestedSegment = NestedSegment::new_contents("a");
    let b: NestedSegment = NestedSegment::new_contents("b");
    let mid: NestedSegment = NestedSegment::new_code("mid", "(", vec![a], ")");
    let top: NestedSegment = NestedSegment::new_code("top", "[", vec![mid, b], "]");
    let level_one: Vec<&NestedSegment> = top.sub_segments_at_depth(1);
    assert_eq!(level_one.len(), 2);
    assert_eq!(level_one[0].name(), "mid");
    assert_eq!(level_one[1].name(), "contents");
    let level_two: Vec<&NestedSegment> = top.sub_segments_at_depth(2);
    assert_eq!(level_two.len(), 1);
    assert_eq!(level_two[0].to_string(), "a");
}

#[test]
fn test_retain_child_segments() {
    let deep_blank: NestedSegment = NestedSegment::new_contents(" ");
    let word: NestedSegment = NestedSegment::new_contents("word");
    let inner: NestedSegment = NestedSegment::new_code("in", "<", vec![deep_blank], ">");
    let mut top: NestedSegment = NestedSegment::new_code("top", "{", vec![word, inner], "}");
    top.retain_child_segments(|_d: usize, s: &NestedSegment| !s.is_whitespace());
    assert_eq!(top.sub_segments().len(), 2);
    assert_eq!(top.sub_segments()[1].sub_segments().len(), 0);

    let mut shallow: NestedSegment = NestedSegment::new_code("top", "{", vec![
        NestedSegment::new_code("keep", "k", vec![], ""),
        NestedSegment::new_code("drop", "d", vec![], ""),
    ], "}");
    shallow.retain_child_segments(|_d: usize, s: &NestedSegment| s.name() == "keep");
    assert_eq!(shallow.sub_segments().len(), 1);
    assert_eq!(shallow.sub_segments()[0].name(), "keep");
}
