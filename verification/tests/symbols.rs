use call_stack::machine::{call_target, extent, inside, jump_target, marker_tag, sort_markers, Tag};
use call_stack::symbols::{clear_tag_bit, Symbol, SymbolTable};
use call_stack::table::Table;
use call_stack::target::Target;

fn sym(address: u64, names: &[&str], stack: Option<u64>) -> Symbol {
    Symbol { address, names: names.iter().map(|s| s.to_string()).collect(), size: 0, stack }
}

fn texts(names: &[&str]) -> Vec<String> {
    names.iter().map(|s| s.to_string()).collect()
}

#[test]
fn first_plain_name_is_canonical() {
    assert_eq!(sym(0, &["$a", "$x.3", "foo", "bar"], None).canonical(), Some(&"foo".to_string()));
    assert_eq!(sym(0, &["foo"], None).canonical(), Some(&"foo".to_string()));
    assert_eq!(sym(0, &["$a"], None).canonical(), None);
    assert_eq!(sym(0, &[], None).canonical(), None);
}

#[test]
fn every_alias_resolves_to_the_canonical_name() {
    let defined = vec![
        sym(0x100, &["foo", "bar", "baz"], Some(8)),
        sym(0x200, &["$x", "main", "_start"], None),
        sym(0x300, &["$a.1"], Some(1)),
    ];
    let t = SymbolTable::build(Target::Other, &defined, &texts(&["puts@@GLIBC_2.2.5", "exit"]));
    for name in ["foo", "bar", "baz"] {
        assert_eq!(t.alias_of(name), Some(&"foo".to_string()));
        assert_eq!(t.stack_of(name), Some(8));
    }
    for name in ["main", "_start"] {
        assert_eq!(t.alias_of(name), Some(&"main".to_string()));
        assert_eq!(t.stack_of(name), None);
    }
    // tags are no aliases
    assert_eq!(t.alias_of("$x"), None);
    assert_eq!(t.alias_of("$a.1"), None);
    assert_eq!(t.alias_of("nowhere"), None);
    assert_eq!(t.canonical_at(0x100), Some(&"foo".to_string()));
    assert_eq!(t.canonical_at(0x200), Some(&"main".to_string()));
    assert_eq!(t.canonical_at(0x300), None);
    assert_eq!(t.canonical_at(0x101), None);
    assert!(t.is_undefined("puts"));
    assert!(t.is_undefined("exit"));
    assert!(!t.is_undefined("puts@@GLIBC_2.2.5"));
    assert!(!t.is_undefined("foo"));
}

#[test]
fn later_symbols_replace_earlier_ones() {
    let defined = vec![sym(0x100, &["foo", "both"], Some(8)), sym(0x200, &["bar", "both"], Some(16))];
    let t = SymbolTable::build(Target::Other, &defined, &Vec::new());
    assert_eq!(t.alias_of("both"), Some(&"bar".to_string()));
    assert_eq!(t.stack_of("both"), Some(16));
    assert_eq!(t.alias_of("foo"), Some(&"foo".to_string()));
}

#[test]
fn thumb_bit_is_cleared() {
    assert_eq!(clear_tag_bit(Target::Thumbv7m, 0x101), 0x100);
    assert_eq!(clear_tag_bit(Target::Thumbv6m, 0x100), 0x100);
    assert_eq!(clear_tag_bit(Target::Thumbv6m, u64::MAX), u64::MAX - 1);
    assert_eq!(clear_tag_bit(Target::Other, 0x101), 0x101);
    let defined = vec![sym(0x100, &["first"], Some(1)), sym(0x101, &["second"], Some(2)), sym(0x201, &["third"], None)];
    let t = SymbolTable::build(Target::Thumbv7m, &defined, &Vec::new());
    // the symbol at 0x101 takes the place of the one at 0x100
    assert_eq!(t.defined.len(), 2);
    assert_eq!(t.defined[0].address, 0x100);
    assert_eq!(t.defined[0].names, texts(&["second"]));
    assert_eq!(t.defined[1].address, 0x200);
    assert_eq!(t.alias_of("first"), None);
    assert_eq!(t.canonical_at(0x100), Some(&"second".to_string()));
    let t = SymbolTable::build(Target::Other, &defined, &Vec::new());
    assert_eq!(t.defined.len(), 3);
    assert_eq!(t.defined[1].address, 0x101);
}

#[test]
fn table_returns_the_last_entry() {
    let mut t: Table<u32> = Table::new();
    assert_eq!(t.get("a"), None);
    t.insert("a".to_string(), 1);
    t.insert("b".to_string(), 2);
    t.insert("a".to_string(), 3);
    assert_eq!(t.len(), 3);
    assert_eq!(t.get("a"), Some(&3));
    assert_eq!(t.find("a"), Some(2));
    assert_eq!(t.get("b"), Some(&2));
    assert!(!t.contains_key("c"));
    t.set_value(2, 7);
    assert_eq!(t.get("a"), Some(&7));
    assert_eq!(t.key_at(1), "b");
    assert_eq!(t.value_at(0), &1);
}

#[test]
fn extent_comes_from_the_symbol_or_the_markers() {
    let markers = vec![(0x100, Tag::Thumb), (0x120, Tag::Thumb), (0x130, Tag::Data), (0x140, Tag::Thumb)];
    assert_eq!(extent(12, 0x100, &markers), 12);
    assert_eq!(extent(0, 0x100, &markers), 0x20);
    // the next marker is one for data
    assert_eq!(extent(0, 0x120, &markers), 0);
    // the marker at the address is one for data
    assert_eq!(extent(0, 0x130, &markers), 0);
    // no marker follows
    assert_eq!(extent(0, 0x140, &markers), 0);
    // no marker at the address
    assert_eq!(extent(0, 0x110, &markers), 0);
    assert_eq!(extent(0, 0x100, &Vec::new()), 0);
}

#[test]
fn branch_targets_are_relative_to_the_function() {
    assert_eq!(call_target(0x100, 0x20), 0x120);
    assert_eq!(call_target(0x100, -0x20), 0xe0);
    assert_eq!(call_target(0x10, -0x20), u64::MAX - 0xf);
    assert_eq!(call_target(0x1_0000_0100, 0x20), 0x120);
    assert_eq!(jump_target(0x100, 0x20), 0x120);
    assert_eq!(jump_target(0x100, -0x20), 0xe0);
    assert_eq!(jump_target(0x10, -0x20), 0xffff_fff0);
    assert_eq!(jump_target(0xffff_fff0, 0x20), 0x10);
    assert!(inside(0x100, 0x20, 0x100));
    assert!(inside(0x100, 0x20, 0x11f));
    assert!(!inside(0x100, 0x20, 0x120));
    assert!(!inside(0x100, 0x20, 0xff));
    assert!(!inside(0x100, 0, 0x100));
}

#[test]
fn marker_names_are_told_apart() {
    assert_eq!(marker_tag("$d"), Some(Tag::Data));
    assert_eq!(marker_tag("$d.12"), Some(Tag::Data));
    assert_eq!(marker_tag("$t"), Some(Tag::Thumb));
    assert_eq!(marker_tag("$t.0"), Some(Tag::Thumb));
    assert_eq!(marker_tag("$a"), None);
    assert_eq!(marker_tag("$"), None);
    assert_eq!(marker_tag("main"), None);
    assert_eq!(marker_tag(""), None);
}

#[test]
fn markers_are_sorted_by_address_and_keep_their_order() {
    let found = vec![
        (0x120, Tag::Thumb),
        (0x100, Tag::Data),
        (0x140, Tag::Thumb),
        (0x100, Tag::Thumb),
        (0x0, Tag::Data),
        (0x120, Tag::Data),
    ];
    assert_eq!(
        sort_markers(&found),
        vec![
            (0x0, Tag::Data),
            (0x100, Tag::Data),
            (0x100, Tag::Thumb),
            (0x120, Tag::Thumb),
            (0x120, Tag::Data),
            (0x140, Tag::Thumb),
        ]
    );
    assert_eq!(sort_markers(&Vec::new()), Vec::new());
    assert_eq!(extent(0, 0x120, &sort_markers(&vec![(0x140, Tag::Thumb), (0x120, Tag::Thumb)])), 0x20);
}
