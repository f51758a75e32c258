use jclass::attr::{classify, JAttr};
use jclass::error::{Category, ClassError};
use jclass::idx::{ClassInfo, Index, Utf8};
use jclass::jtype::{OfClass, OfField, OfMethod};
use jclass::pool::{decode_entry, decode_pool, PoolItem};
use jclass::read::JClassReader;
use jclass::readseek::JClassSeekReader;

fn u16be(v: &mut Vec<u8>, x: u16) {
    v.push((x >> 8) as u8);
    v.push(x as u8);
}

fn u32be(v: &mut Vec<u8>, x: u32) {
    u16be(v, (x >> 16) as u16);
    u16be(v, x as u16);
}

fn utf8(v: &mut Vec<u8>, s: &str) {
    v.push(1);
    u16be(v, s.len() as u16);
    v.extend_from_slice(s.as_bytes());
}

fn class_ref(v: &mut Vec<u8>, i: u16) {
    v.push(7);
    u16be(v, i);
}

fn header(v: &mut Vec<u8>, major: u16, count: u16) {
    u32be(v, 0xCAFEBABE);
    u16be(v, 0);
    u16be(v, major);
    u16be(v, count);
}

/// Foo extends Bar implements Baz, with the given member sections appended.
fn foo_bar_baz(tail: &[u8]) -> Vec<u8> {
    let mut v = Vec::new();
    header(&mut v, 52, 7);
    utf8(&mut v, "Foo");
    class_ref(&mut v, 1);
    utf8(&mut v, "Bar");
    class_ref(&mut v, 3);
    utf8(&mut v, "Baz");
    class_ref(&mut v, 5);
    u16be(&mut v, 0x0021);
    u16be(&mut v, 2);
    u16be(&mut v, 4);
    u16be(&mut v, 1);
    u16be(&mut v, 6);
    v.extend_from_slice(tail);
    v
}

fn empty_sections() -> Vec<u8> {
    vec![0, 0, 0, 0, 0, 0]
}

/// A root type named `name`: no parent, nothing else.
fn minimal(name: &str) -> Vec<u8> {
    let mut v = Vec::new();
    header(&mut v, 52, 3);
    utf8(&mut v, name);
    class_ref(&mut v, 1);
    u16be(&mut v, 0x0021);
    u16be(&mut v, 2);
    u16be(&mut v, 0);
    v.extend_from_slice(&[0, 0, 0, 0, 0, 0, 0, 0]);
    v
}

fn text(s: &jclass::buf::JStr) -> String {
    String::from_utf8(s.to_vec()).unwrap()
}

#[test]
fn foo_bar_baz_scenario() {
    let r = JClassReader::new(foo_bar_baz(&empty_sections())).unwrap();
    assert_eq!(text(&r.class_name().unwrap()), "Foo");
    assert_eq!(r.super_class().unwrap().map(|s| text(&s)), Some("Bar".to_string()));
    let (r, mut it) = r.interfaces().unwrap();
    let names: Vec<String> = it.collect_all().into_iter().map(|x| text(&x.unwrap())).collect();
    assert_eq!(names, vec!["Baz".to_string()]);
    let (r, fields) = r.fields().unwrap();
    assert_eq!(fields.collect_all().unwrap().len(), 0);
    let (r, methods) = r.methods().unwrap();
    assert_eq!(methods.collect_all().unwrap().len(), 0);
    let (_, mut attrs) = r.attributes().unwrap();
    assert!(attrs.next().is_none());
}

#[test]
fn minimal_container_opens() {
    for name in ["A", "java/lang/Object", "x/y/Z$1"] {
        let r = JClassReader::new(minimal(name)).unwrap();
        assert_eq!(text(&r.class_name().unwrap()), name);
        assert!(r.super_class().unwrap().is_none());
        let s = JClassSeekReader::new(minimal(name)).unwrap();
        assert_eq!(text(&s.class_name().unwrap()), name);
    }
}

#[test]
fn parent_absent_iff_zero() {
    let r = JClassReader::new(minimal("Root")).unwrap();
    assert!(r.super_class().unwrap().is_none());
    let r = JClassReader::new(foo_bar_baz(&empty_sections())).unwrap();
    assert_eq!(text(&r.super_class().unwrap().unwrap()), "Bar");
}

#[test]
fn utf8_and_type_reference_lookup() {
    let mut v = Vec::new();
    utf8(&mut v, "a");
    v.extend_from_slice(&[3, 0, 0, 0, 7]);
    utf8(&mut v, "hello");
    v.extend_from_slice(&[3, 0, 0, 0, 8]);
    class_ref(&mut v, 3);
    let b = bytes::Bytes::from(v);
    let (pool, end) = decode_pool(&b, 0, 52, 6).unwrap();
    assert_eq!(end, b.len());
    let name_idx = pool.get(Index::<ClassInfo>::maybe(5).unwrap()).unwrap();
    assert_eq!(name_idx.get(), 3);
    assert_eq!(text(&pool.get(name_idx).unwrap()), "hello");
    match pool.get(Index::<Utf8>::maybe(5).unwrap()) {
        Err(ClassError::PoolCategoryMismatch { expected, found }) => {
            assert_eq!(expected, Category::Utf8);
            assert_eq!(found, 7);
        }
        _ => panic!("expected a category mismatch"),
    }
    assert_eq!(pool.get(Index::<Utf8>::maybe(9).unwrap()).err(), Some(ClassError::PoolIndexOutOfRange { index: 9 }));
    assert_eq!(pool.str_to_index("hello").map(|i| i.get()), Some(3));
    assert!(pool.str_to_index("absent").is_none());
    let all = pool.by_type::<Utf8>();
    assert_eq!(all.iter().map(text).collect::<Vec<_>>(), vec!["a".to_string(), "hello".to_string()]);
}

#[test]
fn method_handle_needs_version_51() {
    let b = bytes::Bytes::from(vec![15u8, 6, 0, 9]);
    assert_eq!(decode_entry(&b, 0, 50).err(), Some(ClassError::TagIllegalForVersion { tag: 15, major: 50 }));
    match decode_entry(&b, 0, 52) {
        Ok((PoolItem::MethodHandle(_), 4)) => {}
        _ => panic!("expected a method handle"),
    }
}

#[test]
fn version_gates_and_unknown_tags() {
    let b = bytes::Bytes::from(vec![17u8, 0, 0, 0, 1]);
    assert_eq!(decode_entry(&b, 0, 54).err(), Some(ClassError::TagIllegalForVersion { tag: 17, major: 54 }));
    assert!(decode_entry(&b, 0, 55).is_ok());
    let b = bytes::Bytes::from(vec![19u8, 0, 1]);
    assert_eq!(decode_entry(&b, 0, 52).err(), Some(ClassError::TagIllegalForVersion { tag: 19, major: 52 }));
    assert!(decode_entry(&b, 0, 53).is_ok());
    let b = bytes::Bytes::from(vec![2u8, 0, 1]);
    assert_eq!(decode_entry(&b, 0, 60).err(), Some(ClassError::InvalidTag { tag: 2, major: 60 }));
    let b = bytes::Bytes::from(vec![15u8, 10, 0, 1]);
    assert_eq!(decode_entry(&b, 0, 60).err(), Some(ClassError::InvalidRefKind { kind: 10 }));
    let b = bytes::Bytes::from(vec![7u8, 0, 0]);
    assert_eq!(decode_entry(&b, 0, 60).err(), Some(ClassError::ZeroIndex));
    let b = bytes::Bytes::from(vec![1u8, 0, 5, b'a']);
    assert_eq!(decode_entry(&b, 0, 60).err(), Some(ClassError::Truncated { offset: 0 }));
}

#[test]
fn wide_entry_reserves_next_slot() {
    let mut v = vec![5u8, 0, 0, 0, 0, 0, 0, 0, 42];
    utf8(&mut v, "x");
    let b = bytes::Bytes::from(v);
    let (pool, _) = decode_pool(&b, 0, 52, 4).unwrap();
    assert_eq!(pool.len(), 4);
    assert!(matches!(pool.item(1), PoolItem::Long(42)));
    assert!(matches!(pool.item(2), PoolItem::Reserved));
    assert!(pool.get(Index::<Utf8>::maybe(2).unwrap()).is_err());
    assert!(pool.get(Index::<ClassInfo>::maybe(2).unwrap()).is_err());
    assert!(pool.get_::<jclass::idx::ConstVal>(2).is_err());
    assert_eq!(text(&pool.get(Index::<Utf8>::maybe(3).unwrap()).unwrap()), "x");
}

#[test]
fn zero_index_is_rejected() {
    assert!(Index::<Utf8>::maybe(0).is_none());
    assert_eq!(Index::<Utf8>::maybe(7).unwrap().get(), 7);
}

#[test]
fn bad_magic_is_fatal() {
    let mut v = minimal("A");
    v[0] = 0;
    assert_eq!(JClassReader::new(v.clone()).err(), Some(ClassError::MagicMismatch));
    assert_eq!(JClassSeekReader::new(v).err(), Some(ClassError::MagicMismatch));
    assert_eq!(JClassReader::new(vec![0xCA, 0xFE]).err(), Some(ClassError::Truncated { offset: 0 }));
}

/// One field `f` of type `I` with a ConstantValue attribute pointing at int 7,
/// and one method with an unknown attribute.
fn with_members() -> Vec<u8> {
    let mut v = Vec::new();
    header(&mut v, 52, 9);
    utf8(&mut v, "C");
    class_ref(&mut v, 1);
    utf8(&mut v, "f");
    utf8(&mut v, "I");
    utf8(&mut v, "ConstantValue");
    v.extend_from_slice(&[3, 0, 0, 0, 7]);
    utf8(&mut v, "m");
    utf8(&mut v, "Custom");
    u16be(&mut v, 0x0021);
    u16be(&mut v, 2);
    u16be(&mut v, 0);
    u16be(&mut v, 0);
    // fields
    u16be(&mut v, 1);
    u16be(&mut v, 0x0019);
    u16be(&mut v, 3);
    u16be(&mut v, 4);
    u16be(&mut v, 1);
    u16be(&mut v, 5);
    u32be(&mut v, 2);
    u16be(&mut v, 6);
    // methods
    u16be(&mut v, 1);
    u16be(&mut v, 0x0001);
    u16be(&mut v, 7);
    u16be(&mut v, 4);
    u16be(&mut v, 1);
    u16be(&mut v, 8);
    u32be(&mut v, 3);
    v.extend_from_slice(&[1, 2, 3]);
    // class attributes
    u16be(&mut v, 0);
    v
}

#[test]
fn members_and_attributes() {
    let r = JClassReader::new(with_members()).unwrap();
    let (r, _) = r.interfaces().unwrap();
    let (r, fields) = r.fields().unwrap();
    let mut all = fields.collect_all().unwrap();
    assert_eq!(all.len(), 1);
    let f = &mut all[0];
    assert_eq!(text(&f.name().unwrap()), "f");
    assert_eq!(text(&f.descriptor().unwrap()), "I");
    assert_eq!(f.flags(), 0x0019);
    let mut attrs = f.attrs();
    let a = attrs.next().unwrap().unwrap();
    assert!(attrs.next().is_none());
    assert_eq!(text(&a.name().unwrap()), "ConstantValue");
    assert_eq!(a.kind().unwrap(), JAttr::ConstantValue);
    match a.constant_value().unwrap() {
        jclass::pool::JVal::Int(x) => assert_eq!(x, 7),
        _ => panic!("expected an int"),
    }
    let (_, mut methods) = r.methods().unwrap();
    let mut m = methods.next().unwrap().unwrap();
    assert!(methods.next().is_none());
    assert_eq!(text(&m.name().unwrap()), "m");
    let a = m.attrs().next().unwrap().unwrap();
    assert_eq!(a.kind().unwrap(), JAttr::Unsupported);
    assert_eq!(a.payload().to_vec(), vec![1, 2, 3]);
}

#[test]
fn skip_and_decode_consume_the_same_bytes() {
    let data = with_members();
    let a = JClassReader::new(data.clone()).unwrap();
    let b = JClassReader::new(data.clone()).unwrap();
    assert_eq!(a.offset(), b.offset());
    let a = a.skip_interfaces().unwrap();
    let (b, _) = b.interfaces().unwrap();
    assert_eq!(a.offset(), b.offset());
    let a = a.skip_fields().unwrap();
    let (b, _) = b.fields().unwrap();
    assert_eq!(a.offset(), b.offset());
    let a = a.skip_methods().unwrap();
    let (b, _) = b.methods().unwrap();
    assert_eq!(a.offset(), b.offset());
    let a = a.skip_attributes().unwrap();
    let (b, _) = b.attributes().unwrap();
    assert_eq!(a.offset(), b.offset());
    assert_eq!(a.offset(), data.len());
}

#[test]
fn skip_ends_where_decode_ends() {
    let data = with_members();
    let a = JClassReader::new(data.clone()).unwrap().skip_interfaces().unwrap();
    let a = a.skip_fields().unwrap().skip_methods().unwrap();
    let a = a.skip_attributes();
    assert!(a.is_ok());
    let (b, _) = JClassReader::new(data.clone()).unwrap().interfaces().unwrap();
    let (b, _) = b.fields().unwrap();
    let (b, _) = b.methods().unwrap();
    assert!(b.attributes().is_ok());
    // A truncated copy fails at the same section either way.
    let cut = data[..data.len() - 3].to_vec();
    let a = JClassReader::new(cut.clone()).unwrap().skip_interfaces().unwrap().skip_fields().unwrap();
    let at = a.offset();
    assert_eq!(a.skip_methods().err(), Some(ClassError::Truncated { offset: at }));
    let (b, _) = JClassReader::new(cut).unwrap().interfaces().unwrap();
    let (b, _) = b.fields().unwrap();
    assert_eq!(b.offset(), at);
    assert_eq!(b.methods().err(), Some(ClassError::Truncated { offset: at }));
}

#[test]
fn random_access_is_repeatable() {
    let s = JClassSeekReader::new(with_members()).unwrap();
    for _ in 0..2 {
        assert_eq!(s.methods().unwrap().collect_all().unwrap().len(), 1);
        assert_eq!(s.fields().unwrap().collect_all().unwrap().len(), 1);
        assert!(s.class_attrs().unwrap().next().is_none());
        assert_eq!(s.interfaces().unwrap().remaining(), 0);
    }
    let mut long = with_members();
    long.push(0);
    assert_eq!(JClassSeekReader::new(long).err(), Some(ClassError::MalformedContainer));
    let mut short = with_members();
    short.pop();
    assert_eq!(JClassSeekReader::new(short).err(), Some(ClassError::MalformedContainer));
}

#[test]
fn member_iterator_stops_at_error() {
    // Two members declared; the first has a zero name index.
    let mut v = Vec::new();
    for _ in 0..2 {
        u16be(&mut v, 0);
        u16be(&mut v, 0);
        u16be(&mut v, 1);
        u16be(&mut v, 0);
    }
    let pool_bytes = bytes::Bytes::from(vec![1u8, 0, 1, b'x']);
    let (pool, _) = decode_pool(&pool_bytes, 0, 52, 2).unwrap();
    let mut it = jclass::iter::MemberIter::<OfField>::new(bytes::Bytes::from(v.clone()), pool.share(), 2).unwrap();
    assert_eq!(it.next().unwrap().err(), Some(ClassError::ZeroIndex));
    assert!(it.next().is_none());
    assert!(jclass::iter::MemberIter::<OfMethod>::new(bytes::Bytes::from(v), pool, 3).is_err());
}

#[test]
fn attribute_legality_by_context() {
    assert_eq!(classify::<OfField>(b"ConstantValue"), JAttr::ConstantValue);
    assert_eq!(classify::<OfMethod>(b"ConstantValue"), JAttr::Unsupported);
    assert_eq!(classify::<OfMethod>(b"Code"), JAttr::Code);
    assert_eq!(classify::<OfClass>(b"Code"), JAttr::Unsupported);
    assert_eq!(classify::<OfClass>(b"SourceFile"), JAttr::SourceFile);
    assert_eq!(classify::<OfClass>(b"Nope"), JAttr::Unsupported);
    assert_eq!(JAttr::from_name(b"StackMapTable"), JAttr::StackMapTable);
}

fn attr(v: &mut Vec<u8>, name: u16, payload: &[u8]) {
    u16be(v, name);
    u32be(v, payload.len() as u32);
    v.extend_from_slice(payload);
}

fn with_class_attributes() -> Vec<u8> {
    let mut v = Vec::new();
    header(&mut v, 52, 16);
    utf8(&mut v, "C");
    class_ref(&mut v, 1);
    utf8(&mut v, "SourceFile");
    utf8(&mut v, "C.java");
    utf8(&mut v, "Signature");
    utf8(&mut v, "<T:Ljava/lang/Object;>Ljava/lang/Object;");
    utf8(&mut v, "EnclosingMethod");
    utf8(&mut v, "Outer");
    class_ref(&mut v, 8);
    utf8(&mut v, "run");
    utf8(&mut v, "()V");
    v.extend_from_slice(&[12, 0, 10, 0, 11]);
    utf8(&mut v, "InnerClasses");
    utf8(&mut v, "Inner");
    utf8(&mut v, "SourceDebugExtension");
    u16be(&mut v, 0x0021);
    u16be(&mut v, 2);
    u16be(&mut v, 0);
    u16be(&mut v, 0);
    u16be(&mut v, 0);
    u16be(&mut v, 0);
    u16be(&mut v, 5);
    attr(&mut v, 3, &[0, 4]);
    attr(&mut v, 5, &[0, 6]);
    attr(&mut v, 7, &[0, 9, 0, 12]);
    attr(&mut v, 13, &[0, 1, 0, 2, 0, 9, 0, 14, 0, 8]);
    attr(&mut v, 15, b"dbg");
    v
}

#[test]
fn class_attribute_decoders() {
    let s = JClassSeekReader::new(with_class_attributes()).unwrap();
    let mut attrs = s.class_attrs().unwrap();
    let a = attrs.next().unwrap().unwrap();
    assert_eq!(a.kind().unwrap(), JAttr::SourceFile);
    assert_eq!(text(&a.source_file().unwrap()), "C.java");
    let a = attrs.next().unwrap().unwrap();
    assert_eq!(a.kind().unwrap(), JAttr::Signature);
    assert_eq!(text(&a.signature().unwrap()), "<T:Ljava/lang/Object;>Ljava/lang/Object;");
    let a = attrs.next().unwrap().unwrap();
    assert_eq!(a.kind().unwrap(), JAttr::EnclosingMethod);
    let (outer, method) = a.enclosing_method().unwrap();
    assert_eq!(text(&outer), "Outer");
    let (mn, md) = method.unwrap();
    assert_eq!((text(&mn), text(&md)), ("run".to_string(), "()V".to_string()));
    let a = attrs.next().unwrap().unwrap();
    assert_eq!(a.kind().unwrap(), JAttr::InnerClasses);
    let mut inner = a.inner_classes().unwrap();
    let ic = inner.next().unwrap().unwrap();
    assert!(inner.next().is_none());
    assert_eq!(ic.inner_class().get(), 2);
    assert_eq!(ic.outer_class().map(|i| i.get()), Some(9));
    assert_eq!(ic.name().map(|i| i.get()), Some(14));
    assert_eq!(ic.access_flags(), 8);
    assert_eq!(text(&inner.pool().class_name_at(ic.inner_class().get()).unwrap()), "C");
    let a = attrs.next().unwrap().unwrap();
    assert_eq!(a.kind().unwrap(), JAttr::SourceDebugExtension);
    assert_eq!(text(&a.source_debug_extension()), "dbg");
    assert!(attrs.next().is_none());
    // A payload handed to the wrong decoder: its index names a UTF-8 entry.
    let a = s.class_attrs().unwrap().next().unwrap().unwrap();
    assert_eq!(a.constant_value().err(), Some(ClassError::PoolCategoryMismatch { expected: Category::ConstVal, found: 1 }));
}

#[test]
fn numeric_and_reference_entries() {
    let mut v = Vec::new();
    v.extend_from_slice(&[4, 0x3F, 0x80, 0, 0]);
    v.extend_from_slice(&[6, 0x40, 0, 0, 0, 0, 0, 0, 0]);
    v.extend_from_slice(&[3, 0xFF, 0xFF, 0xFF, 0xFE]);
    v.extend_from_slice(&[11, 0, 1, 0, 2]);
    v.extend_from_slice(&[10, 0, 1, 0, 2]);
    let b = bytes::Bytes::from(v);
    let (pool, _) = decode_pool(&b, 0, 52, 7).unwrap();
    assert!(matches!(pool.item(1), PoolItem::Float(0x3F80_0000)));
    assert!(matches!(pool.item(2), PoolItem::Double(0x4000_0000_0000_0000)));
    assert!(matches!(pool.item(3), PoolItem::Reserved));
    assert!(matches!(pool.item(4), PoolItem::Int(-2)));
    match pool.get_::<jclass::idx::AnyMethodRef>(5).unwrap() {
        (true, c, n) => assert_eq!((c.get(), n.get()), (1, 2)),
        _ => panic!("expected an interface method reference"),
    }
    match pool.get_::<jclass::idx::AnyMethodRef>(6).unwrap() {
        (false, c, n) => assert_eq!((c.get(), n.get()), (1, 2)),
        _ => panic!("expected a method reference"),
    }
    assert!(pool.get_::<jclass::idx::MethodRef>(5).is_err());
    assert_eq!(pool.get_::<Utf8>(0).err(), Some(ClassError::ZeroIndex));
}

#[test]
fn wide_entry_in_last_slot_is_malformed() {
    let b = bytes::Bytes::from(vec![5u8, 0, 0, 0, 0, 0, 0, 0, 1]);
    assert_eq!(decode_pool(&b, 0, 52, 2).err(), Some(ClassError::MalformedContainer));
    let (pool, _) = decode_pool(&b, 0, 52, 3).unwrap();
    assert_eq!(pool.len(), 3);
    let mut v = Vec::new();
    header(&mut v, 52, 2);
    v.extend_from_slice(&[5, 0, 0, 0, 0, 0, 0, 0, 1]);
    u16be(&mut v, 0x0021);
    u16be(&mut v, 1);
    u16be(&mut v, 0);
    v.extend_from_slice(&[0, 0, 0, 0, 0, 0, 0, 0]);
    assert_eq!(JClassReader::new(v).err(), Some(ClassError::MalformedContainer));
}

#[test]
fn pool_holds_exactly_its_declared_slots() {
    let b = bytes::Bytes::from(Vec::new());
    assert_eq!(decode_pool(&b, 0, 52, 0).unwrap().0.len(), 1);
    assert_eq!(decode_pool(&b, 0, 52, 1).unwrap().0.len(), 1);
    let r = JClassReader::new(foo_bar_baz(&empty_sections())).unwrap();
    assert_eq!(r.pool().len(), 7);
    assert!(matches!(r.pool().item(0), PoolItem::Empty));
}

#[test]
fn collect_all_yields_every_record_in_order() {
    let r = JClassReader::new(with_members()).unwrap();
    let (r, _) = r.interfaces().unwrap();
    let (_, fields) = r.fields().unwrap();
    let all = fields.collect_all().unwrap();
    assert_eq!(all.len(), 1);
    assert_eq!((all[0].flags(), all[0].attr_count()), (0x0019, 1));
}
