use glorp_syntax::locals::{Locals, Scope, ScopeData};
use glorp_syntax::sealed_source::SealedSource;
use glorp_syntax::text::{ByteRangeText, StringText};
use ropey::Rope;

#[test]
fn string_text_byte_text_clamps_to_utf8_boundaries() {
    let text = StringText::new("aé世b");

    assert_eq!(text.byte_text(1..5), "é");
    assert_eq!(text.byte_text(2..6), "世");
    assert_eq!(text.byte_text(2..5), "");
    assert_eq!(text.byte_text(0..99), "aé世b");
}

#[test]
fn byte_range_is_clamped_to_source() {
    let rope = Rope::from_str("alpha\nbeta\n");
    let sealed = SealedSource::from_byte_range(rope.slice(..), 2..99, "");

    assert_eq!(sealed.real_len_bytes, 9);
    assert_eq!(sealed.suffix_len_bytes, 0);
    assert_eq!(sealed.slice().to_string(), "pha\nbeta\n");
}

#[test]
fn newline_padding_is_added_only_when_missing() {
    let rope = Rope::from_str("alpha\nbeta");
    let sealed = SealedSource::from_byte_range_with_newline_padding(rope.slice(..), 6..10);
    assert_eq!(sealed.real_len_bytes, 4);
    assert_eq!(sealed.suffix_len_bytes, 1);
    assert_eq!(sealed.slice().to_string(), "beta\n");

    let rope = Rope::from_str("alpha\nbeta\n");
    let sealed = SealedSource::from_byte_range_with_newline_padding(rope.slice(..), 6..11);
    assert_eq!(sealed.real_len_bytes, 5);
    assert_eq!(sealed.suffix_len_bytes, 0);
    assert_eq!(sealed.slice().to_string(), "beta\n");
}

#[test]
fn cursor() {
    let mut locals = Locals::default();
    let scope1 = locals.push(ScopeData {
        definitions: Default::default(),
        range: 5..105,
        inherit: true,
        // NOTE: the subsequent call to `push` below will add scope2 to scope1's children.
        children: Default::default(),
        parent: Some(Scope::root()),
    });
    let scope2 = locals.push(ScopeData {
        definitions: Default::default(),
        range: 10..100,
        inherit: true,
        children: Default::default(),
        parent: Some(scope1),
    });

    let mut cursor = locals.scope_cursor(0);
    assert_eq!(cursor.current_scope(), Scope::root());
    assert_eq!(cursor.advance(3), Scope::root());
    assert_eq!(cursor.advance(5), scope1);
    assert_eq!(cursor.advance(8), scope1);
    assert_eq!(cursor.advance(10), scope2);
    assert_eq!(cursor.advance(50), scope2);
    assert_eq!(cursor.advance(100), scope1);
    assert_eq!(cursor.advance(105), Scope::root());
    assert_eq!(cursor.advance(110), Scope::root());

    let mut cursor = locals.scope_cursor(8);
    assert_eq!(cursor.current_scope(), scope1);
    assert_eq!(cursor.advance(10), scope2);
    assert_eq!(cursor.advance(100), scope1);
    assert_eq!(cursor.advance(110), Scope::root());

    let mut cursor = locals.scope_cursor(10);
    assert_eq!(cursor.current_scope(), scope2);
    assert_eq!(cursor.advance(100), scope1);
    assert_eq!(cursor.advance(110), Scope::root());
}
